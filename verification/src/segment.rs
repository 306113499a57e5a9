//! The naming of segment files and the order of generations.
//!
//! The segment of generation `g` is the file named by the decimal digits of
//! `g` and the suffix `.log`. A file is a segment where its name is a run of
//! decimal digits, at least one, that denotes a `u64`, and that suffix.

use vstd::prelude::*;
use vstd::string::*;

verus! {

/// The decimal digit `d`, for `d` below ten, as a string.
pub open spec fn digit_text(d: nat) -> Seq<char> {
    if d == 0 {
        "0"@
    } else if d == 1 {
        "1"@
    } else if d == 2 {
        "2"@
    } else if d == 3 {
        "3"@
    } else if d == 4 {
        "4"@
    } else if d == 5 {
        "5"@
    } else if d == 6 {
        "6"@
    } else if d == 7 {
        "7"@
    } else if d == 8 {
        "8"@
    } else {
        "9"@
    }
}

/// The decimal digits of `n`, without leading zeros.
pub open spec fn decimal(n: nat) -> Seq<char>
    decreases n,
{
    if n < 10 {
        digit_text(n)
    } else {
        decimal(n / 10) + digit_text(n % 10)
    }
}

/// The name of the segment file of generation `gen`.
pub open spec fn segment_name(gen: u64) -> Seq<char> {
    decimal(gen as nat) + ".log"@
}

/// Whether every character of `s` is a decimal digit.
pub open spec fn all_digits(s: Seq<char>) -> bool {
    forall|i: int| 0 <= i < s.len() ==> '0' <= #[trigger] s[i] <= '9'
}

/// The number that a run of decimal digits denotes.
pub open spec fn digits_value(s: Seq<char>) -> nat
    decreases s.len(),
{
    if s.len() == 0 {
        0
    } else {
        digits_value(s.drop_last()) * 10 + (s.last() as nat - '0' as nat) as nat
    }
}

/// The generation that a file name stands for, if it names a segment.
pub open spec fn generation_of(name: Seq<char>) -> Option<u64> {
    let n = name.len() - 4;
    if n > 0 && name.subrange(n, name.len() as int) == ".log"@ && all_digits(name.subrange(0, n))
        && digits_value(name.subrange(0, n)) <= u64::MAX {
        Some(digits_value(name.subrange(0, n)) as u64)
    } else {
        None
    }
}

/// The decimal digit `d` as a string.
fn digit_str(d: u64) -> (s: &'static str)
    requires
        d < 10,
    ensures
        s@ == digit_text(d as nat),
{
    if d == 0 {
        "0"
    } else if d == 1 {
        "1"
    } else if d == 2 {
        "2"
    } else if d == 3 {
        "3"
    } else if d == 4 {
        "4"
    } else if d == 5 {
        "5"
    } else if d == 6 {
        "6"
    } else if d == 7 {
        "7"
    } else if d == 8 {
        "8"
    } else {
        "9"
    }
}

/// Appends the decimal digits of `n` to `out`.
fn push_decimal(out: &mut String, n: u64)
    ensures
        final(out)@ == old(out)@ + decimal(n as nat),
    decreases n,
{
    if n >= 10 {
        push_decimal(out, n / 10);
    }
    out.append(digit_str(n % 10));
}

/// The name of the segment file of generation `gen`: its decimal digits and
/// `.log`.
pub fn gen_fname(gen: u64) -> (name: String)
    ensures
        name@ == segment_name(gen),
{
    let mut name = String::new();
    push_decimal(&mut name, gen);
    name.append(".log");
    name
}

/// A prefix of a run of digits denotes no more than the whole run.
proof fn lemma_prefix_value(s: Seq<char>, i: int)
    requires
        0 <= i <= s.len(),
    ensures
        digits_value(s.subrange(0, i)) <= digits_value(s),
    decreases s.len(),
{
    if i == s.len() {
        assert(s.subrange(0, i) =~= s);
    } else {
        assert(s.drop_last().subrange(0, i) =~= s.subrange(0, i));
        lemma_prefix_value(s.drop_last(), i);
    }
}

/// The digits of a number are digits, at least one, and denote the number.
pub proof fn lemma_decimal(n: nat)
    ensures
        decimal(n).len() > 0,
        all_digits(decimal(n)),
        digits_value(decimal(n)) == n,
    decreases n,
{
    reveal_strlit("0");
    reveal_strlit("1");
    reveal_strlit("2");
    reveal_strlit("3");
    reveal_strlit("4");
    reveal_strlit("5");
    reveal_strlit("6");
    reveal_strlit("7");
    reveal_strlit("8");
    reveal_strlit("9");
    let last = digit_text(n % 10);
    assert(last.len() == 1 && last[0] as nat == '0' as nat + n % 10);
    if n < 10 {
        assert(decimal(n).drop_last() =~= Seq::<char>::empty());
        assert(digits_value(decimal(n).drop_last()) == 0);
    } else {
        lemma_decimal(n / 10);
        assert(decimal(n).drop_last() =~= decimal(n / 10));
    }
}

/// The name that `gen_fname` gives a generation stands for that generation.
pub proof fn lemma_name_of_generation(gen: u64)
    ensures
        generation_of(segment_name(gen)) == Some(gen),
{
    reveal_strlit(".log");
    lemma_decimal(gen as nat);
    let digits = decimal(gen as nat);
    let name = segment_name(gen);
    assert(name.subrange(0, digits.len() as int) =~= digits);
    assert(name.subrange(digits.len() as int, name.len() as int) =~= ".log"@);
}

/// A name that stands for a generation holds ASCII characters only.
proof fn lemma_segment_names_are_ascii(name: Seq<char>)
    requires
        generation_of(name) is Some,
    ensures
        vstd::utf8::is_ascii_chars(name),
{
    reveal_strlit(".log");
    let n = name.len() - 4;
    assert forall|i: int| 0 <= i < name.len() implies '\0' <= #[trigger] name[i] <= '\u{7f}' by {
        if i < n {
            assert(name.subrange(0, n)[i] == name[i]);
        } else {
            assert(name.subrange(n, name.len() as int)[i - n] == name[i]);
        }
    }
}

/// The generation that the file name `name` stands for, if it names a
/// segment.
pub fn segment_gen(name: &str) -> (r: Option<u64>)
    ensures
        r == generation_of(name@),
{
    if !name.is_ascii() {
        proof {
            if generation_of(name@) is Some {
                lemma_segment_names_are_ascii(name@);
            }
        }
        return None;
    }
    let bytes = name.as_bytes();
    proof {
        reveal_strlit(".log");
        is_ascii_spec_bytes(name);
    }
    let len = bytes.len();
    if len <= 4 {
        return None;
    }
    let n: usize = len - 4;
    if bytes[n] != 46u8 || bytes[n + 1] != 108u8 || bytes[n + 2] != 111u8 || bytes[n + 3] != 103u8 {
        proof {
            let tail = name@.subrange(n as int, len as int);
            assert(tail[0] == name@[n as int]);
            assert(tail[1] == name@[n + 1]);
            assert(tail[2] == name@[n + 2]);
            assert(tail[3] == name@[n + 3]);
        }
        return None;
    }
    assert(name@.subrange(n as int, len as int) =~= ".log"@);
    let ghost digits = name@.subrange(0, n as int);
    let mut value: u64 = 0;
    let mut i: usize = 0;
    while i < n
        invariant
            i <= n,
            n + 4 == len,
            len == name@.len(),
            bytes@.len() == len,
            digits == name@.subrange(0, n as int),
            forall|j: int| 0 <= j < len ==> bytes@[j] == #[trigger] name@[j] as u8,
            vstd::utf8::is_ascii_chars(name@),
            all_digits(digits.subrange(0, i as int)),
            value == digits_value(digits.subrange(0, i as int)),
        decreases n - i,
    {
        let b = bytes[i];
        let ghost next = digits.subrange(0, i + 1);
        assert(next.drop_last() =~= digits.subrange(0, i as int));
        assert(next.last() == name@[i as int]);
        if b < 48u8 || b > 57u8 {
            assert(!all_digits(digits)) by {
                assert(digits[i as int] == name@[i as int]);
            }
            return None;
        }
        let d: u64 = (b - 48u8) as u64;
        if value > (u64::MAX - d) / 10 {
            proof {
                lemma_prefix_value(digits, i + 1);
            }
            return None;
        }
        value = value * 10 + d;
        i = i + 1;
    }
    assert(digits.subrange(0, n as int) =~= digits);
    Some(value)
}

/// Whether the generations in `gens` ascend, none of them twice.
pub open spec fn ascending(gens: Seq<u64>) -> bool {
    forall|i: int, j: int| 0 <= i < j < gens.len() ==> gens[i] < gens[j]
}

/// A directory listing as mathematical values: for each file its name and
/// its bytes.
pub open spec fn listing(files: Seq<(String, Vec<u8>)>) -> Seq<(Seq<char>, Seq<u8>)> {
    files.map_values(|f: (String, Vec<u8>)| (f.0@, f.1@))
}

/// Whether one of the files is the segment of generation `gen`, under
/// whatever spelling of its number.
pub open spec fn lists(dir: Seq<(Seq<char>, Seq<u8>)>, gen: u64) -> bool {
    exists|i: int| 0 <= i < dir.len() && generation_of((#[trigger] dir[i]).0) == Some(gen)
}

/// Whether `gens` holds the generations of the segments in `dir`, each once,
/// in ascending order.
pub open spec fn is_gen_list(dir: Seq<(Seq<char>, Seq<u8>)>, gens: Seq<u64>) -> bool {
    &&& ascending(gens)
    &&& forall|g: u64| gens.contains(g) <==> lists(dir, g)
}

/// The generations of the segments in `dir`, each once, in ascending order.
pub open spec fn generations(dir: Seq<(Seq<char>, Seq<u8>)>) -> Seq<u64> {
    choose|gens: Seq<u64>| is_gen_list(dir, gens)
}

/// Two ascending lists with the same members are the same list.
pub proof fn lemma_ascending_unique(a: Seq<u64>, b: Seq<u64>)
    requires
        ascending(a),
        ascending(b),
        forall|g: u64| a.contains(g) <==> b.contains(g),
    ensures
        a == b,
    decreases a.len(),
{
    if a.len() == 0 {
        if b.len() > 0 {
            assert(b.contains(b[0]));
        }
        assert(a =~= b);
    } else {
        assert(a.contains(a.last()));
        assert(b.len() > 0);
        assert(b.contains(b.last()));
        let i = choose|i: int| 0 <= i < b.len() && b[i] == a.last();
        let j = choose|j: int| 0 <= j < a.len() && a[j] == b.last();
        assert(a.last() == b.last());
        assert forall|g: u64| a.drop_last().contains(g) <==> b.drop_last().contains(g) by {
            if a.drop_last().contains(g) {
                let k = choose|k: int| 0 <= k < a.drop_last().len() && a.drop_last()[k] == g;
                assert(a[k] == g);
                assert(a.contains(g));
                let m = choose|m: int| 0 <= m < b.len() && b[m] == g;
                assert(b.drop_last()[m] == g);
            }
            if b.drop_last().contains(g) {
                let k = choose|k: int| 0 <= k < b.drop_last().len() && b.drop_last()[k] == g;
                assert(b[k] == g);
                assert(b.contains(g));
                let m = choose|m: int| 0 <= m < a.len() && a[m] == g;
                assert(a.drop_last()[m] == g);
            }
        }
        lemma_ascending_unique(a.drop_last(), b.drop_last());
        assert(a =~= a.drop_last().push(a.last()));
        assert(b =~= b.drop_last().push(b.last()));
    }
}

/// The ascending list `gens` with `gen` put in its place, unless it is there.
pub open spec fn with_gen(gens: Seq<u64>, gen: u64) -> Seq<u64>
    decreases gens.len(),
{
    if gens.len() == 0 || gens.last() < gen {
        gens.push(gen)
    } else if gens.last() == gen {
        gens
    } else {
        with_gen(gens.drop_last(), gen).push(gens.last())
    }
}

/// Putting a generation in its place keeps the list ascending and adds that
/// generation to its members, nothing else.
proof fn lemma_with_gen(gens: Seq<u64>, gen: u64)
    requires
        ascending(gens),
    ensures
        ascending(with_gen(gens, gen)),
        with_gen(gens, gen).contains(gen),
        forall|g: u64| with_gen(gens, gen).contains(g) <==> (gens.contains(g) || g == gen),
    decreases gens.len(),
{
    let out = with_gen(gens, gen);
    if gens.len() == 0 || gens.last() < gen {
        assert(out[gens.len() as int] == gen);
        assert forall|g: u64| out.contains(g) <==> (gens.contains(g) || g == gen) by {
            if gens.contains(g) {
                let j = choose|j: int| 0 <= j < gens.len() && gens[j] == g;
                assert(out[j] == g);
            }
            if out.contains(g) {
                let j = choose|j: int| 0 <= j < out.len() && out[j] == g;
                if j < gens.len() {
                    assert(gens[j] == g);
                }
            }
        }
    } else if gens.last() == gen {
        assert(gens.contains(gens.last()));
    } else {
        let rest = gens.drop_last();
        let last = gens.last();
        lemma_with_gen(rest, gen);
        let mid = with_gen(rest, gen);
        assert forall|i: int| 0 <= i < mid.len() implies #[trigger] mid[i] < last by {
            assert(mid.contains(mid[i]));
            if rest.contains(mid[i]) {
                let j = choose|j: int| 0 <= j < rest.len() && rest[j] == mid[i];
                assert(gens[j] < gens[gens.len() - 1]);
            }
        }
        assert forall|g: u64| out.contains(g) <==> (gens.contains(g) || g == gen) by {
            if out.contains(g) {
                let j = choose|j: int| 0 <= j < out.len() && out[j] == g;
                if j < mid.len() {
                    assert(mid.contains(mid[j]));
                    if rest.contains(g) {
                        let k = choose|k: int| 0 <= k < rest.len() && rest[k] == g;
                        assert(gens[k] == g);
                    }
                } else {
                    assert(gens[gens.len() - 1] == g);
                }
            }
            if gens.contains(g) {
                let k = choose|k: int| 0 <= k < gens.len() && gens[k] == g;
                if k < rest.len() {
                    assert(rest[k] == g);
                    assert(rest.contains(g));
                    assert(mid.contains(g));
                    let j = choose|j: int| 0 <= j < mid.len() && mid[j] == g;
                    assert(out[j] == g);
                } else {
                    assert(out[mid.len() as int] == g);
                }
            }
            if g == gen {
                assert(mid.contains(gen));
                let j = choose|j: int| 0 <= j < mid.len() && mid[j] == gen;
                assert(out[j] == g);
            }
        }
        assert(mid.contains(gen));
        let j = choose|j: int| 0 <= j < mid.len() && mid[j] == gen;
        assert(out[j] == gen);
    }
}

/// Every directory has its list of generations.
pub proof fn lemma_generations(dir: Seq<(Seq<char>, Seq<u8>)>)
    ensures
        is_gen_list(dir, generations(dir)),
    decreases dir.len(),
{
    if dir.len() == 0 {
        let none = Seq::<u64>::empty();
        assert(is_gen_list(dir, none));
    } else {
        let rest = dir.drop_last();
        lemma_generations(rest);
        let before = generations(rest);
        let gens = match generation_of(dir.last().0) {
            Some(gen) => with_gen(before, gen),
            None => before,
        };
        if generation_of(dir.last().0) is Some {
            lemma_with_gen(before, generation_of(dir.last().0)->0);
        }
        assert forall|g: u64| gens.contains(g) <==> lists(dir, g) by {
            if lists(dir, g) {
                let j = choose|j: int|
                    0 <= j < dir.len() && generation_of((#[trigger] dir[j]).0) == Some(g);
                if j < rest.len() {
                    assert(rest[j] == dir[j]);
                    assert(lists(rest, g));
                }
            }
            if lists(rest, g) {
                let j = choose|j: int|
                    0 <= j < rest.len() && generation_of((#[trigger] rest[j]).0) == Some(g);
                assert(dir[j] == rest[j]);
            }
            if generation_of(dir.last().0) == Some(g) {
                assert(dir[dir.len() - 1] == dir.last());
            }
        }
        assert(is_gen_list(dir, gens));
    }
}

/// The generations whose segments are among `files`, each once, in ascending
/// order. Files that are no segments are passed over.
pub fn get_gen_list(files: &Vec<(String, Vec<u8>)>) -> (gens: Vec<u64>)
    ensures
        is_gen_list(listing(files@), gens@),
        gens@ == generations(listing(files@)),
{
    let ghost dir = listing(files@);
    let mut gens: Vec<u64> = Vec::new();
    let mut i: usize = 0;
    while i < files.len()
        invariant
            i <= files@.len(),
            dir == listing(files@),
            ascending(gens@),
            forall|g: u64| gens@.contains(g) <==> lists(dir.subrange(0, i as int), g),
        decreases files@.len() - i,
    {
        let ghost before = gens@;
        let ghost seen = dir.subrange(0, i as int);
        let ghost seen_next = dir.subrange(0, i + 1);
        assert(seen_next.drop_last() =~= seen);
        assert(seen_next.last() == dir[i as int]);
        let found = segment_gen(files[i].0.as_str());
        match found {
            Some(gen) => {
                let mut at: usize = 0;
                while at < gens.len() && gens[at] < gen
                    invariant
                        at <= gens@.len(),
                        gens@ == before,
                        ascending(gens@),
                        forall|j: int| 0 <= j < at ==> gens@[j] < gen,
                    decreases gens@.len() - at,
                {
                    at = at + 1;
                }
                if at == gens.len() || gens[at] != gen {
                    gens.insert(at, gen);
                    assert(gens@[at as int] == gen);
                    assert forall|g: u64| gens@.contains(g) <==> (before.contains(g) || g == gen) by {
                        if before.contains(g) {
                            let j = choose|j: int| 0 <= j < before.len() && before[j] == g;
                            if j < at {
                                assert(gens@[j] == g);
                            } else {
                                assert(gens@[j + 1] == g);
                            }
                        }
                        if gens@.contains(g) && g != gen {
                            let j = choose|j: int| 0 <= j < gens@.len() && gens@[j] == g;
                            if j < at {
                                assert(before[j] == g);
                            } else {
                                assert(before[j - 1] == g);
                            }
                        }
                    }
                } else {
                    assert(before.contains(gen));
                }
                assert(forall|g: u64| gens@.contains(g) <==> (before.contains(g) || g == gen));
                assert forall|g: u64| gens@.contains(g) <==> lists(seen_next, g) by {
                    assert(before.contains(g) <==> lists(seen, g));
                    if lists(seen_next, g) {
                        let j = choose|j: int|
                            0 <= j < seen_next.len() && generation_of((#[trigger] seen_next[j]).0)
                                == Some(g);
                        if j < i {
                            assert(seen[j] == seen_next[j]);
                            assert(lists(seen, g));
                        } else {
                            assert(seen_next[j] == dir[i as int]);
                            assert(g == gen);
                        }
                    }
                    if lists(seen, g) {
                        let j = choose|j: int|
                            0 <= j < seen.len() && generation_of((#[trigger] seen[j]).0) == Some(g);
                        assert(seen_next[j] == seen[j]);
                    }
                    if g == gen {
                        assert(generation_of(seen_next[i as int].0) == Some(g));
                    }
                }
            },
            None => {
                assert forall|g: u64| lists(seen, g) <==> lists(seen_next, g) by {
                    if lists(seen_next, g) {
                        let j = choose|j: int|
                            0 <= j < seen_next.len() && generation_of((#[trigger] seen_next[j]).0)
                                == Some(g);
                        assert(seen[j] == seen_next[j]);
                    }
                    if lists(seen, g) {
                        let j = choose|j: int|
                            0 <= j < seen.len() && generation_of((#[trigger] seen[j]).0) == Some(g);
                        assert(seen_next[j] == seen[j]);
                    }
                }
            },
        }
        i = i + 1;
    }
    assert(dir.subrange(0, i as int) =~= dir);
    proof {
        let chosen = generations(dir);
        assert(is_gen_list(dir, gens@));
        lemma_ascending_unique(gens@, chosen);
    }
    gens
}

} // verus!
