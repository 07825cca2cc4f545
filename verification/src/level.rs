//! The puzzle fixtures: for each level, the input the machine is fed, the
//! registers it starts with, and the output it is expected to produce.

use vstd::prelude::*;

use crate::machine::{Input, Output, Registers, Tile, TileV, tiles_view};
use crate::parser::{chars_of, digits_val, is_digit};

verus! {

/// One puzzle: its input, its initial register file, and the output a
/// correct program emits.
pub type Level = (Input, Registers, Output);

/// The tile value of one number.
pub open spec fn num_tile(v: i16) -> TileV {
    TileV::Number(v as int)
}

/// The tile value of one letter.
pub open spec fn letter_tile(c: char) -> TileV {
    TileV::Letter(c)
}

/// Each number as a tile value.
pub open spec fn num_tiles(ns: Seq<i16>) -> Seq<TileV> {
    Seq::new(ns.len(), |i: int| num_tile(ns[i]))
}

/// Each character as a letter tile value.
pub open spec fn letter_tiles(cs: Seq<char>) -> Seq<TileV> {
    Seq::new(cs.len(), |i: int| letter_tile(cs[i]))
}

/// Appending the tile of `ns[k]` extends the value sequence by one
/// number tile.
proof fn lemma_append_num_step(
    oldv: Seq<TileV>,
    ns: Seq<i16>,
    k: int,
    pre: Seq<Tile>,
    post: Seq<Tile>,
    t: Tile,
)
    requires
        0 <= k < ns.len(),
        post == pre.push(t),
        t@ == num_tile(ns[k]),
        tiles_view(pre) == oldv + num_tiles(ns.take(k)),
    ensures
        tiles_view(post) == oldv + num_tiles(ns.take(k + 1)),
{
    let target = oldv + num_tiles(ns.take(k + 1));
    assert(tiles_view(pre).len() == pre.len());
    assert(ns.take(k).len() == k);
    assert(num_tiles(ns.take(k)).len() == k);
    assert(pre.len() == oldv.len() + k);
    assert forall|i: int| 0 <= i < tiles_view(post).len() implies tiles_view(post)[i]
        == target[i] by {
        if i < oldv.len() {
            assert(post[i] == pre[i]);
            assert(tiles_view(pre)[i] == oldv[i]);
            assert(target[i] == oldv[i]);
        } else if i < pre.len() {
            assert(post[i] == pre[i]);
            assert(tiles_view(pre)[i] == num_tiles(ns.take(k))[i - oldv.len()]);
            assert(num_tiles(ns.take(k))[i - oldv.len()] == num_tile(ns.take(k)[i - oldv.len()]));
            assert(ns.take(k)[i - oldv.len()] == ns[i - oldv.len()]);
            assert(target[i] == num_tile(ns.take(k + 1)[i - oldv.len()]));
            assert(ns.take(k + 1)[i - oldv.len()] == ns[i - oldv.len()]);
        } else {
            assert(post[i] == t);
            assert(target[i] == num_tile(ns.take(k + 1)[k]));
            assert(ns.take(k + 1)[k] == ns[k]);
        }
    }
    assert(tiles_view(post) =~= target);
}

/// Appending the tile of `cs[k]` extends the value sequence by one letter
/// tile.
proof fn lemma_append_letter_step(
    oldv: Seq<TileV>,
    cs: Seq<char>,
    k: int,
    pre: Seq<Tile>,
    post: Seq<Tile>,
    t: Tile,
)
    requires
        0 <= k < cs.len(),
        post == pre.push(t),
        t@ == letter_tile(cs[k]),
        tiles_view(pre) == oldv + letter_tiles(cs.take(k)),
    ensures
        tiles_view(post) == oldv + letter_tiles(cs.take(k + 1)),
{
    let target = oldv + letter_tiles(cs.take(k + 1));
    assert(tiles_view(pre).len() == pre.len());
    assert(cs.take(k).len() == k);
    assert(letter_tiles(cs.take(k)).len() == k);
    assert(pre.len() == oldv.len() + k);
    assert forall|i: int| 0 <= i < tiles_view(post).len() implies tiles_view(post)[i]
        == target[i] by {
        if i < oldv.len() {
            assert(post[i] == pre[i]);
            assert(tiles_view(pre)[i] == oldv[i]);
            assert(target[i] == oldv[i]);
        } else if i < pre.len() {
            assert(post[i] == pre[i]);
            assert(tiles_view(pre)[i] == letter_tiles(cs.take(k))[i - oldv.len()]);
            assert(letter_tiles(cs.take(k))[i - oldv.len()] == letter_tile(
                cs.take(k)[i - oldv.len()],
            ));
            assert(cs.take(k)[i - oldv.len()] == cs[i - oldv.len()]);
            assert(target[i] == letter_tile(cs.take(k + 1)[i - oldv.len()]));
            assert(cs.take(k + 1)[i - oldv.len()] == cs[i - oldv.len()]);
        } else {
            assert(post[i] == t);
            assert(target[i] == letter_tile(cs.take(k + 1)[k]));
            assert(cs.take(k + 1)[k] == cs[k]);
        }
    }
    assert(tiles_view(post) =~= target);
}

/// Append each number of `n` to the input as a number tile.
pub fn append_numbers(input: &mut Input, n: &[i16])
    requires
        forall|k: int| 0 <= k < n@.len() ==> -999 <= #[trigger] n@[k] && n@[k] <= 999,
    ensures
        tiles_view(final(input)@) == tiles_view(old(input)@) + num_tiles(n@),
{
    proof {
        assert(tiles_view(input@) =~= tiles_view(input@) + num_tiles(n@.take(0)));
    }
    let mut k: usize = 0;
    while k < n.len()
        invariant
            k <= n@.len(),
            forall|j: int| 0 <= j < n@.len() ==> -999 <= #[trigger] n@[j] && n@[j] <= 999,
            tiles_view(input@) == tiles_view(old(input)@) + num_tiles(n@.take(k as int)),
        decreases n@.len() - k,
    {
        let ghost pre = input@;
        let t = Tile::num(n[k]);
        input.push(t);
        proof {
            lemma_append_num_step(tiles_view(old(input)@), n@, k as int, pre, input@, t);
        }
        k = k + 1;
    }
    proof {
        assert(n@.take(n@.len() as int) =~= n@);
    }
}

/// The numbers of `n`, as the whole input.
pub fn from_numbers(n: &[i16]) -> (r: Input)
    requires
        forall|k: int| 0 <= k < n@.len() ==> -999 <= #[trigger] n@[k] && n@[k] <= 999,
    ensures
        tiles_view(r@) == num_tiles(n@),
{
    let mut input: Input = Vec::new();
    proof {
        assert(tiles_view(input@) =~= Seq::<TileV>::empty());
    }
    append_numbers(&mut input, n);
    proof {
        assert(tiles_view(input@) =~= num_tiles(n@));
    }
    input
}

/// Append each character of `s` to the input as a letter tile.
pub fn append_string(input: &mut Input, s: &str)
    ensures
        tiles_view(final(input)@) == tiles_view(old(input)@) + letter_tiles(s@),
{
    let cs = chars_of(s);
    proof {
        assert(tiles_view(input@) =~= tiles_view(input@) + letter_tiles(s@.take(0)));
    }
    let mut k: usize = 0;
    while k < cs.len()
        invariant
            k <= cs@.len(),
            cs@ == s@,
            tiles_view(input@) == tiles_view(old(input)@) + letter_tiles(s@.take(k as int)),
        decreases cs@.len() - k,
    {
        let ghost pre = input@;
        let t = Tile::Letter(cs[k]);
        input.push(t);
        proof {
            lemma_append_letter_step(tiles_view(old(input)@), s@, k as int, pre, input@, t);
        }
        k = k + 1;
    }
    proof {
        assert(s@.take(s@.len() as int) =~= s@);
    }
}

/// The characters of `s`, as the whole input.
pub fn from_string(s: &str) -> (r: Input)
    ensures
        tiles_view(r@) == letter_tiles(s@),
{
    let mut input: Input = Vec::new();
    proof {
        assert(tiles_view(input@) =~= Seq::<TileV>::empty());
    }
    append_string(&mut input, s);
    proof {
        assert(tiles_view(input@) =~= letter_tiles(s@));
    }
    input
}

/// Append the characters of `s` as letters, then a zero tile as the
/// terminator.
pub fn append_zero_terminated_string(input: &mut Input, s: &str)
    ensures
        tiles_view(final(input)@) == tiles_view(old(input)@) + letter_tiles(s@) + seq![
            TileV::Number(0),
        ],
{
    append_string(input, s);
    input.push(Tile::num(0));
    proof {
        assert(tiles_view(input@) =~= tiles_view(old(input)@) + letter_tiles(s@) + seq![
            TileV::Number(0),
        ]);
    }
}

/// The end of the current comma-separated part: the first comma at or
/// after `at`, or the end of the text.
pub open spec fn part_end(s: Seq<char>, at: int) -> int
    decreases s.len() - at,
{
    if 0 <= at < s.len() && s[at] != ',' {
        part_end(s, at + 1)
    } else {
        at
    }
}

/// A non-empty run of decimal digits and nothing else.
pub open spec fn all_digits(digs: Seq<char>) -> bool {
    forall|k: int| 0 <= k < digs.len() ==> is_digit(#[trigger] digs[k])
}

/// What a part parses to as a signed sixteen-bit decimal numeral: an
/// optional sign, then one or more digits, within the type's range;
/// anything else is no numeral.
pub open spec fn parse_i16_spec(p: Seq<char>) -> Option<int> {
    if p.len() == 0 {
        None
    } else {
        let neg = p[0] == '-';
        let signed = p[0] == '-' || p[0] == '+';
        let digs = if signed {
            p.drop_first()
        } else {
            p
        };
        if digs.len() == 0 {
            None
        } else if !all_digits(digs) {
            None
        } else {
            let mag = digits_val(digs, 0, digs.len() as int);
            let v = if neg {
                -mag
            } else {
                mag
            };
            if -32768 <= v <= 32767 {
                Some(v)
            } else {
                None
            }
        }
    }
}

/// The tiles one part stands for: a numeral is one number tile; any other
/// part is its characters as letter tiles.
pub open spec fn tiles_of_part(p: Seq<char>) -> Seq<TileV> {
    match parse_i16_spec(p) {
        Some(v) => seq![TileV::Number(v)],
        None => letter_tiles(p),
    }
}

/// A part the machine can hold: if it is a numeral, its value lies within
/// the clamping range.
pub open spec fn part_ok(p: Seq<char>) -> bool {
    parse_i16_spec(p) matches Some(v) ==> -999 <= v <= 999
}

/// Every part from `at` on is one the machine can hold.
pub open spec fn mixed_ok(s: Seq<char>, at: int) -> bool
    decreases s.len() - at,
{
    let end = part_end(s, at);
    &&& part_ok(s.subrange(at, end))
    &&& (end < s.len() && at <= end ==> mixed_ok(s, end + 1))
}

/// The tiles of every part from `at` on, in order.
pub open spec fn mixed_tiles_from(s: Seq<char>, at: int) -> Seq<TileV>
    decreases s.len() - at,
{
    let end = part_end(s, at);
    tiles_of_part(s.subrange(at, end)) + if end < s.len() && at <= end {
        mixed_tiles_from(s, end + 1)
    } else {
        Seq::empty()
    }
}

fn is_digit_exec(c: char) -> (r: bool)
    ensures
        r == is_digit(c),
{
    '0' <= c && c <= '9'
}

fn exec_is_comma(c: char) -> (r: bool)
    ensures
        r == (c == ','),
{
    c == ','
}

fn find_part_end(s: &Vec<char>, at: usize) -> (r: usize)
    requires
        at <= s@.len(),
    ensures
        r == part_end(s@, at as int),
        at <= r <= s@.len(),
{
    let mut i: usize = at;
    while i < s.len() && !exec_is_comma(s[i])
        invariant
            at <= i <= s@.len(),
            part_end(s@, at as int) == part_end(s@, i as int),
        decreases s@.len() - i,
    {
        i = i + 1;
    }
    i
}

/// The value of a digit run does not depend on the characters around it.
proof fn lemma_digits_val_congruent(p: Seq<char>, q: Seq<char>, at: int, end: int)
    requires
        forall|k: int| at <= k < end ==> p[k] == q[k],
    ensures
        digits_val(p, at, end) == digits_val(q, at, end),
    decreases end - at,
{
    if at < end {
        lemma_digits_val_congruent(p, q, at, end - 1);
    }
}

/// Reading a digit run in place or cut out as its own sequence gives the
/// same value.
proof fn lemma_digits_val_shift(s: Seq<char>, at: int, end: int)
    requires
        0 <= at <= end <= s.len(),
    ensures
        digits_val(s, at, end) == digits_val(s.subrange(at, end), 0, end - at),
    decreases end - at,
{
    if at < end {
        lemma_digits_val_shift(s, at, end - 1);
        assert(s.subrange(at, end - 1) =~= s.subrange(at, end).take(end - 1 - at));
        lemma_digits_val_congruent(
            s.subrange(at, end - 1),
            s.subrange(at, end),
            0,
            end - 1 - at,
        );
    }
}

/// A digit run's value is never negative.
proof fn lemma_digits_val_nonneg(s: Seq<char>, at: int, end: int)
    requires
        forall|k: int| at <= k < end ==> is_digit(#[trigger] s[k]),
    ensures
        digits_val(s, at, end) >= 0,
    decreases end - at,
{
    if at < end {
        lemma_digits_val_nonneg(s, at, end - 1);
    }
}

/// Read the digit run `[at, end)` as a number, exact up to 32768 and
/// saturated to 33000 beyond it, so that the sixteen-bit range test is
/// still exact.
fn digits_to_mag(s: &Vec<char>, at: usize, end: usize) -> (r: u32)
    requires
        at <= end <= s@.len(),
        forall|k: int| at <= k < end ==> is_digit(#[trigger] s@[k]),
    ensures
        digits_val(s@, at as int, end as int) <= 32768 ==> r == digits_val(
            s@,
            at as int,
            end as int,
        ),
        digits_val(s@, at as int, end as int) > 32768 ==> r == 33000,
{
    let mut v: u32 = 0;
    let mut i: usize = at;
    proof {
        lemma_digits_val_nonneg(s@, at as int, at as int);
    }
    while i < end
        invariant
            at <= i <= end <= s@.len(),
            forall|k: int| at <= k < end ==> is_digit(#[trigger] s@[k]),
            digits_val(s@, at as int, i as int) <= 32768 ==> v == digits_val(
                s@,
                at as int,
                i as int,
            ),
            digits_val(s@, at as int, i as int) > 32768 ==> v == 33000,
            v <= 33000,
        decreases end - i,
    {
        let c = s[i];
        let d: u32 = c as u32 - 48;
        proof {
            assert(is_digit(s@[i as int]));
            assert(d == s@[i as int] as int - '0' as int);
            lemma_digits_val_nonneg(s@, at as int, i as int);
        }
        v = v * 10 + d;
        if v > 32768 {
            v = 33000;
        }
        i = i + 1;
    }
    v
}

/// Parse the characters `[at, end)` as a signed sixteen-bit decimal
/// numeral, exactly as `parse_i16_spec` says.
fn parse_i16(s: &Vec<char>, at: usize, end: usize) -> (r: Option<i16>)
    requires
        at <= end <= s@.len(),
    ensures
        match r {
            Some(v) => parse_i16_spec(s@.subrange(at as int, end as int)) == Some(v as int),
            None => parse_i16_spec(s@.subrange(at as int, end as int)) is None,
        },
{
    let ghost p = s@.subrange(at as int, end as int);
    if at == end {
        return None;
    }
    let first = s[at];
    let neg = first == '-';
    let signed = neg || first == '+';
    let start = if signed {
        at + 1
    } else {
        at
    };
    let ghost digs = if signed {
        p.drop_first()
    } else {
        p
    };
    proof {
        assert(digs =~= s@.subrange(start as int, end as int));
    }
    if start == end {
        return None;
    }
    let mut j = start;
    while j < end
        invariant
            at <= start <= j <= end <= s@.len(),
            at < end,
            p == s@.subrange(at as int, end as int),
            digs == s@.subrange(start as int, end as int),
            digs == (if signed {
                p.drop_first()
            } else {
                p
            }),
            signed == (p[0] == '-' || p[0] == '+'),
            neg == (p[0] == '-'),
            digs.len() > 0,
            forall|k: int| start <= k < j ==> is_digit(#[trigger] s@[k]),
        decreases end - j,
    {
        if !is_digit_exec(s[j]) {
            proof {
                assert(digs[j - start] == s@[j as int]);
                assert(!is_digit(digs[j - start]));
                assert(!all_digits(digs));
            }
            return None;
        }
        j = j + 1;
    }
    proof {
        assert forall|k: int| 0 <= k < digs.len() implies is_digit(#[trigger] digs[k]) by {
            assert(digs[k] == s@[start + k]);
        }
        assert(all_digits(digs));
        lemma_digits_val_shift(s@, start as int, end as int);
        lemma_digits_val_congruent(
            s@.subrange(start as int, end as int),
            digs,
            0,
            end - start,
        );
        lemma_digits_val_nonneg(s@, start as int, end as int);
    }
    let mag = digits_to_mag(s, start, end);
    if neg {
        if mag > 32768 {
            None
        } else if mag == 32768 {
            Some(i16::MIN)
        } else {
            Some(-(mag as i16))
        }
    } else {
        if mag > 32767 {
            None
        } else {
            Some(mag as i16)
        }
    }
}

/// Split `s` on commas and read each part: a part that is a sixteen-bit
/// numeral becomes one number tile, any other part becomes its characters
/// as letter tiles. Every numeral part must lie within the clamping
/// range.
pub fn parse_mixed(s: &str) -> (r: Input)
    requires
        mixed_ok(s@, 0),
    ensures
        tiles_view(r@) == mixed_tiles_from(s@, 0),
{
    let cs = chars_of(s);
    let n = cs.len();
    let mut input: Input = Vec::new();
    let mut at: usize = 0;
    proof {
        assert(tiles_view(input@) =~= Seq::<TileV>::empty());
    }
    loop
        invariant_except_break
            at <= n,
            n == s@.len(),
            cs@ == s@,
            mixed_ok(s@, at as int),
            mixed_tiles_from(s@, 0) == tiles_view(input@) + mixed_tiles_from(s@, at as int),
        ensures
            tiles_view(input@) == mixed_tiles_from(s@, 0),
        decreases n - at,
    {
        let ghost base = tiles_view(input@);
        let end = find_part_end(&cs, at);
        let ghost p = s@.subrange(at as int, end as int);
        match parse_i16(&cs, at, end) {
            Some(v) => {
                proof {
                    assert(part_ok(p));
                }
                input.push(Tile::num(v));
                proof {
                    assert(tiles_view(input@) =~= base + tiles_of_part(p));
                }
            },
            None => {
                let mut j = at;
                proof {
                    assert(base + letter_tiles(p.take(0)) =~= base);
                }
                while j < end
                    invariant
                        at <= j <= end <= cs@.len(),
                        cs@ == s@,
                        p == s@.subrange(at as int, end as int),
                        tiles_view(input@) == base + letter_tiles(p.take(j - at)),
                    decreases end - j,
                {
                    let ghost pre = input@;
                    let t = Tile::Letter(cs[j]);
                    input.push(t);
                    proof {
                        assert(p[j - at] == s@[j as int]);
                        lemma_append_letter_step(base, p, j - at, pre, input@, t);
                    }
                    j = j + 1;
                }
                proof {
                    assert(p.take(end - at) =~= p);
                    assert(tiles_view(input@) =~= base + tiles_of_part(p));
                }
            },
        }
        if end < n {
            at = end + 1;
        } else {
            proof {
                assert(mixed_tiles_from(s@, at as int) =~= tiles_of_part(p));
                assert(tiles_view(input@) =~= mixed_tiles_from(s@, 0));
            }
            break;
        }
    }
    input
}

/// Copy the inbox to the outbox.
pub fn level_1() -> (r: Level)
    ensures
        tiles_view(r.0@) == num_tiles(seq![1i16, 2i16, 3i16]),
        r.1@ == Map::<int, TileV>::empty(),
        tiles_view(r.2@) == tiles_view(r.0@),
{
    let input = from_numbers(&[1, 2, 3]);
    let registers = Registers::new();
    let output = from_numbers(&[1, 2, 3]);
    (input, registers, output)
}

/// Copy a long inbox to the outbox.
pub fn level_2() -> (r: Level)
    ensures
        tiles_view(r.0@) == letter_tiles("initialize"@),
        r.1@ == Map::<int, TileV>::empty(),
        tiles_view(r.2@) == tiles_view(r.0@),
{
    let input = from_string("initialize");
    let registers = Registers::new();
    let output = from_string("initialize");
    (input, registers, output)
}

/// Ignore the inbox and spell a word from the pre-set registers.
pub fn level_3() -> (r: Level)
    ensures
        tiles_view(r.0@) == num_tiles(seq![-99i16, -99i16, -99i16, -99i16]),
        r.1@ == map![
            0int => TileV::Letter('u'),
            1int => TileV::Letter('j'),
            2int => TileV::Letter('x'),
            3int => TileV::Letter('g'),
            4int => TileV::Letter('b'),
            5int => TileV::Letter('e'),
        ],
        tiles_view(r.2@) == letter_tiles("bug"@),
{
    let input = from_numbers(&[-99, -99, -99, -99]);

    let mut registers = Registers::new();
    registers.insert(0, Tile::Letter('u'));
    registers.insert(1, Tile::Letter('j'));
    registers.insert(2, Tile::Letter('x'));
    registers.insert(3, Tile::Letter('g'));
    registers.insert(4, Tile::Letter('b'));
    registers.insert(5, Tile::Letter('e'));
    proof {
        assert(registers@ =~= map![
            0int => TileV::Letter('u'),
            1int => TileV::Letter('j'),
            2int => TileV::Letter('x'),
            3int => TileV::Letter('g'),
            4int => TileV::Letter('b'),
            5int => TileV::Letter('e'),
        ]);
    }

    let output = from_string("bug");
    (input, registers, output)
}

/// Swap each pair of the input.
pub fn level_4() -> (r: Level)
    ensures
        tiles_view(r.0@) == num_tiles(seq![6i16, 4i16, -1i16, 7i16]) + letter_tiles("ih"@),
        r.1@ == Map::<int, TileV>::empty(),
        tiles_view(r.2@) == num_tiles(seq![4i16, 6i16, 7i16, -1i16]) + letter_tiles("hi"@),
{
    let mut input = from_numbers(&[6, 4, -1, 7]);
    append_string(&mut input, "ih");

    let registers = Registers::new();

    let mut output = from_numbers(&[4, 6, 7, -1]);
    append_string(&mut output, "hi");

    (input, registers, output)
}

/// Copy the inbox to the outbox, dropping letters already seen.
pub fn level_35() -> (r: Level)
    ensures
        tiles_view(r.0@) == letter_tiles("eabedebaeb"@),
        r.1@ == map![14int => TileV::Number(0)],
        tiles_view(r.2@) == letter_tiles("eabd"@),
{
    let input = from_string("eabedebaeb");

    let mut registers = Registers::new();
    registers.insert(14, Tile::num(0));
    proof {
        assert(registers@ =~= map![14int => TileV::Number(0)]);
    }

    let output = from_string("eabd");

    (input, registers, output)
}

/// Given two zero-terminated words, emit the one that comes first in
/// alphabetical order.
pub fn level_36() -> (r: Level)
    ensures
        tiles_view(r.0@) == letter_tiles("aab"@) + seq![TileV::Number(0)] + letter_tiles("aaa"@)
            + seq![TileV::Number(0)],
        r.1@ == map![23int => TileV::Number(0), 24int => TileV::Number(10)],
        tiles_view(r.2@) == letter_tiles("aaa"@),
{
    let mut input: Input = Vec::new();
    proof {
        assert(tiles_view(input@) =~= Seq::<TileV>::empty());
    }
    append_zero_terminated_string(&mut input, "aab");
    append_zero_terminated_string(&mut input, "aaa");
    proof {
        assert(tiles_view(input@) =~= letter_tiles("aab"@) + seq![TileV::Number(0)]
            + letter_tiles("aaa"@) + seq![TileV::Number(0)]);
    }

    let mut registers = Registers::new();
    registers.insert(23, Tile::num(0));
    registers.insert(24, Tile::num(10));
    proof {
        assert(registers@ =~= map![23int => TileV::Number(0), 24int => TileV::Number(10)]);
    }

    let output = from_string("aaa");

    (input, registers, output)
}

/// The registers hold letter/next-pointer pairs; follow the chain from the
/// input until a negative pointer, emitting each letter on the way.
pub fn level_37() -> (r: Level)
    ensures
        tiles_view(r.0@) == num_tiles(seq![0i16, 23i16]),
        r.1@ == map![
            0int => TileV::Letter('e'),
            1int => TileV::Number(13),
            3int => TileV::Letter('c'),
            4int => TileV::Number(23),
            10int => TileV::Letter('p'),
            11int => TileV::Number(20),
            13int => TileV::Letter('s'),
            14int => TileV::Number(3),
            20int => TileV::Letter('e'),
            21int => TileV::Number(-1),
            23int => TileV::Letter('a'),
            24int => TileV::Number(10),
        ],
        tiles_view(r.2@) == letter_tiles("escapeape"@),
{
    let input = from_numbers(&[0, 23]);

    let mut registers = Registers::new();
    registers.insert(0, Tile::Letter('e'));
    registers.insert(1, Tile::num(13));
    registers.insert(3, Tile::Letter('c'));
    registers.insert(4, Tile::num(23));
    registers.insert(10, Tile::Letter('p'));
    registers.insert(11, Tile::num(20));
    registers.insert(13, Tile::Letter('s'));
    registers.insert(14, Tile::num(3));
    registers.insert(20, Tile::Letter('e'));
    registers.insert(21, Tile::num(-1));
    registers.insert(23, Tile::Letter('a'));
    registers.insert(24, Tile::num(10));
    proof {
        assert(registers@ =~= map![
            0int => TileV::Letter('e'),
            1int => TileV::Number(13),
            3int => TileV::Letter('c'),
            4int => TileV::Number(23),
            10int => TileV::Letter('p'),
            11int => TileV::Number(20),
            13int => TileV::Letter('s'),
            14int => TileV::Number(3),
            20int => TileV::Letter('e'),
            21int => TileV::Number(-1),
            23int => TileV::Letter('a'),
            24int => TileV::Number(10),
        ]);
    }

    let output = from_string("escapeape");

    (input, registers, output)
}

/// Given numbers, emit the decimal digits of each.
pub fn level_38() -> (r: Level)
    ensures
        tiles_view(r.0@) == num_tiles(seq![33i16, 505i16, 7i16, 979i16]),
        r.1@ == map![
            9int => TileV::Number(0),
            10int => TileV::Number(10),
            11int => TileV::Number(100),
        ],
        tiles_view(r.2@) == num_tiles(seq![3i16, 3i16, 5i16, 0i16, 5i16, 7i16, 9i16, 7i16, 9i16]),
{
    let input = from_numbers(&[33, 505, 7, 979]);

    let mut registers = Registers::new();
    registers.insert(9, Tile::num(0));
    registers.insert(10, Tile::num(10));
    registers.insert(11, Tile::num(100));
    proof {
        assert(registers@ =~= map![
            9int => TileV::Number(0),
            10int => TileV::Number(10),
            11int => TileV::Number(100),
        ]);
    }

    let output = from_numbers(&[3, 3, 5, 0, 5, 7, 9, 7, 9]);

    (input, registers, output)
}

} // verus!
