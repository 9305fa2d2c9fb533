//! Names of the log files: segment `n` lives in `basicdb{n}.log`, and a
//! compaction is written to `basicdb_compact.log` first. Scanning a
//! directory listing for segment files gives back their numbers.
use vstd::prelude::*;
use vstd::string::*;

verus! {

/// The name that every log file starts with.
pub const BASE_LOG_NAME: &'static str = "basicdb";

/// The characters of the base name.
pub open spec fn base_name() -> Seq<char> {
    seq!['b', 'a', 's', 'i', 'c', 'd', 'b']
}

/// The characters of the file extension of segment files.
pub open spec fn log_suffix() -> Seq<char> {
    seq!['.', 'l', 'o', 'g']
}

/// The characters of the name of the compaction file.
pub open spec fn compact_name() -> Seq<char> {
    base_name() + seq!['_', 'c', 'o', 'm', 'p', 'a', 'c', 't'] + log_suffix()
}

/// The decimal digit character for `d`.
pub open spec fn digit_char(d: int) -> char {
    (48 + d) as char
}

/// Whether `c` is an ASCII decimal digit.
pub open spec fn is_digit(c: char) -> bool {
    48 <= c as int <= 57
}

/// The decimal representation of `n`, without leading zeros.
pub open spec fn decimal(n: nat) -> Seq<char>
    decreases n,
{
    if n < 10 {
        seq![digit_char(n as int)]
    } else {
        decimal(n / 10).push(digit_char((n % 10) as int))
    }
}

/// The number that a string of decimal digits stands for.
pub open spec fn digits_value(d: Seq<char>) -> int
    decreases d.len(),
{
    if d.len() == 0 {
        0
    } else {
        digits_value(d.drop_last()) * 10 + (d.last() as int - 48)
    }
}

/// Whether every character of `d` is an ASCII decimal digit.
pub open spec fn all_digits(d: Seq<char>) -> bool {
    forall|i: int| 0 <= i < d.len() ==> #[trigger] is_digit(d[i])
}

/// `s` without a leading `+`, if it has one.
pub open spec fn unsigned_part(s: Seq<char>) -> Seq<char> {
    if s.len() > 0 && s[0] == '+' {
        s.drop_first()
    } else {
        s
    }
}

/// What parsing `s` as a `u32` gives, as `str::parse::<u32>` does: an
/// optional `+` followed by one or more decimal digits, whose value fits in a
/// `u32`.
pub open spec fn parse_u32_spec(s: Seq<char>) -> Option<u32> {
    let d = unsigned_part(s);
    if d.len() > 0 && all_digits(d) && digits_value(d) <= u32::MAX {
        Some(digits_value(d) as u32)
    } else {
        None
    }
}

/// The segment number that a file name stands for: the name starts with the
/// base name and ends with `.log`, and what lies between parses as a `u32`.
pub open spec fn segment_of_name(s: Seq<char>) -> Option<u32> {
    let n = s.len();
    if n >= 7 && s.subrange(0, 7) == base_name() && n >= 4 && s.subrange(n - 4, n as int)
        == log_suffix() {
        parse_u32_spec(s.subrange(7, n - 4))
    } else {
        None
    }
}

/// The name of the file of segment `n`.
pub open spec fn log_path_spec(n: u32) -> Seq<char> {
    base_name() + decimal(n as nat) + log_suffix()
}

fn digit_str(d: u32) -> (out: &'static str)
    requires
        d < 10,
    ensures
        out@ == seq![digit_char(d as int)],
{
    proof {
        reveal_strlit("0");
        reveal_strlit("1");
        reveal_strlit("2");
        reveal_strlit("3");
        reveal_strlit("4");
        reveal_strlit("5");
        reveal_strlit("6");
        reveal_strlit("7");
        reveal_strlit("8");
        reveal_strlit("9");
    }
    let out = match d {
        0 => "0",
        1 => "1",
        2 => "2",
        3 => "3",
        4 => "4",
        5 => "5",
        6 => "6",
        7 => "7",
        8 => "8",
        _ => "9",
    };
    assert(out@ =~= seq![digit_char(d as int)]);
    out
}

/// Appends the decimal representation of `n`.
fn append_decimal(s: &mut String, n: u32)
    ensures
        final(s)@ == old(s)@ + decimal(n as nat),
    decreases n,
{
    if n >= 10 {
        append_decimal(s, n / 10);
    }
    s.append(digit_str(n % 10));
    assert(final(s)@ =~= old(s)@ + decimal(n as nat));
}

/// The name of the file of segment `segment_number`.
pub fn get_log_path(segment_number: &u32) -> (out: String)
    ensures
        out@ == log_path_spec(*segment_number),
        out@.len() >= 12,
        out@.subrange(0, 7) == seq!['b', 'a', 's', 'i', 'c', 'd', 'b'],
        out@.subrange(out@.len() - 4, out@.len() as int) == seq!['.', 'l', 'o', 'g'],
        forall|i: int| 7 <= i < out@.len() - 4 ==> 48 <= #[trigger] out@[i] as int <= 57,
        digits_value(out@.subrange(7, out@.len() - 4)) == *segment_number,
        out@[7] == '0' ==> out@.len() == 12,
{
    proof {
        lemma_log_path_canonical(*segment_number);
    }
    proof {
        reveal_strlit("basicdb");
        reveal_strlit(".log");
    }
    let mut s = String::from_str("basicdb");
    append_decimal(&mut s, *segment_number);
    s.append(".log");
    assert(s@ =~= log_path_spec(*segment_number));
    s
}

/// The name of the file that a compaction is written to.
pub fn get_compact_log_path() -> (out: String)
    ensures
        out@ == compact_name(),
{
    proof {
        reveal_strlit("basicdb_compact.log");
    }
    let s = String::from_str("basicdb_compact.log");
    assert(s@ =~= compact_name());
    s
}

/// Whether the characters of `s` at `pos` are those of `pat`.
fn matches_at(s: &str, pos: usize, pat: &str) -> (out: bool)
    requires
        pos + pat@.len() <= s@.len(),
        s@.len() <= usize::MAX,
    ensures
        out == (s@.subrange(pos as int, pos + pat@.len()) == pat@),
{
    let n = pat.unicode_len();
    let mut i: usize = 0;
    while i < n
        invariant
            n == pat@.len(),
            pos + n <= s@.len(),
            s@.len() <= usize::MAX,
            i <= n,
            forall|j: int| 0 <= j < i ==> s@[pos + j] == pat@[j],
        decreases n - i,
    {
        if s.get_char(pos + i) != pat.get_char(i) {
            assert(s@.subrange(pos as int, pos + pat@.len())[i as int] != pat@[i as int]);
            return false;
        }
        i += 1;
    }
    assert(s@.subrange(pos as int, pos + pat@.len()) =~= pat@);
    true
}

proof fn lemma_digits_value_nonneg(d: Seq<char>)
    requires
        forall|j: int| 0 <= j < d.len() ==> #[trigger] is_digit(d[j]),
    ensures
        0 <= digits_value(d),
    decreases d.len(),
{
    if d.len() > 0 {
        let p = d.drop_last();
        assert forall|j: int| 0 <= j < p.len() implies #[trigger] is_digit(p[j]) by {
            assert(p[j] == d[j]);
        }
        lemma_digits_value_nonneg(p);
        assert(is_digit(d[d.len() - 1]));
    }
}

proof fn lemma_digits_value_prefix(d: Seq<char>, i: int)
    requires
        0 <= i <= d.len(),
        forall|j: int| 0 <= j < d.len() ==> #[trigger] is_digit(d[j]),
    ensures
        0 <= digits_value(d.take(i)) <= digits_value(d),
    decreases d.len(),
{
    if i == d.len() {
        assert(d.take(i) =~= d);
        lemma_digits_value_nonneg(d);
    } else {
        let p = d.drop_last();
        assert forall|j: int| 0 <= j < p.len() implies #[trigger] is_digit(p[j]) by {
            assert(p[j] == d[j]);
        }
        assert(p.take(i) =~= d.take(i));
        lemma_digits_value_prefix(p, i);
        lemma_digits_value_nonneg(p);
        assert(is_digit(d[d.len() - 1]));
    }
}

/// Parses the characters of `s` in `from .. to` as a `u32`, as
/// `str::parse::<u32>` does.
fn parse_u32_range(s: &str, from: usize, to: usize) -> (out: Option<u32>)
    requires
        from <= to <= s@.len(),
    ensures
        out == parse_u32_spec(s@.subrange(from as int, to as int)),
{
    let ghost sub = s@.subrange(from as int, to as int);
    let mut i: usize = from;
    if i < to && s.get_char(i) == '+' {
        i += 1;
    }
    let start = i;
    let ghost d = s@.subrange(start as int, to as int);
    assert(d =~= unsigned_part(sub));
    if start == to {
        return None;
    }
    let mut acc: u64 = 0;
    assert(d.take(0) =~= Seq::<char>::empty());
    while i < to
        invariant
            from <= start <= i <= to <= s@.len(),
            d == s@.subrange(start as int, to as int),
            sub == s@.subrange(from as int, to as int),
            d == unsigned_part(sub),
            acc <= u32::MAX,
            forall|j: int| 0 <= j < i - start ==> #[trigger] is_digit(d[j]),
            acc == digits_value(d.take(i - start)),
        decreases to - i,
    {
        let c = s.get_char(i);
        assert(c == d[i - start]);
        if !('0' <= c && c <= '9') {
            assert(!is_digit(d[i - start]));
            assert(!all_digits(d));
            return None;
        }
        let digit = (c as u32 - 48) as u64;
        let ghost t = d.take(i - start + 1);
        assert(t.drop_last() =~= d.take(i - start));
        acc = acc * 10 + digit;
        if acc > 0xffff_ffff {
            proof {
                if all_digits(d) {
                    lemma_digits_value_prefix(d, i - start + 1);
                    assert(digits_value(d) > u32::MAX);
                }
            }
            return None;
        }
        i += 1;
    }
    assert(d.take(i - start) =~= d);
    Some(acc as u32)
}

/// The segment number that the file name `name` stands for, if it is the
/// name of a segment file.
pub fn segment_number_of(name: &str) -> (out: Option<u32>)
    ensures
        out == segment_of_name(name@),
{
    proof {
        reveal_strlit("basicdb");
        reveal_strlit(".log");
    }
    assert("basicdb"@ =~= base_name());
    assert(".log"@ =~= log_suffix());
    let n = name.unicode_len();
    if n < 7 || !matches_at(name, 0, "basicdb") {
        return None;
    }
    if !matches_at(name, n - 4, ".log") {
        return None;
    }
    let ghost s = name@;
    assert(s.subrange(0, 7) == base_name());
    assert(s.subrange(n - 4, n as int) == log_suffix());
    if n < 11 {
        proof {
            assert(s.subrange(n - 4, n as int)[0] == '.');
            assert(s.subrange(0, 7)[n - 4] == s[n - 4]);
            assert(base_name()[n - 4] != '.');
        }
        return None;
    }
    parse_u32_range(name, 7, n - 4)
}

/// The largest segment number among the names that stand for segment
/// files, or 0 when none does.
pub open spec fn highest_segment_spec(names: Seq<Seq<char>>) -> u32
    decreases names.len(),
{
    if names.len() == 0 {
        0
    } else {
        let prev = highest_segment_spec(names.drop_last());
        match segment_of_name(names.last()) {
            Some(n) => if n > prev {
                n
            } else {
                prev
            },
            None => prev,
        }
    }
}

/// The names of a directory listing, as characters.
pub open spec fn names_view(names: Seq<String>) -> Seq<Seq<char>> {
    names.map_values(|s: String| s@)
}

/// The highest segment number among the file names of a directory
/// listing, or 0 when there is no segment file.
pub fn get_highest_segment_number(names: &Vec<String>) -> (out: u32)
    ensures
        out == highest_segment_spec(names_view(names@)),
{
    let ghost all = names_view(names@);
    let mut max_number: u32 = 0;
    let mut i: usize = 0;
    assert(all.take(0) =~= Seq::<Seq<char>>::empty());
    while i < names.len()
        invariant
            all == names_view(names@),
            i <= names@.len(),
            max_number == highest_segment_spec(all.take(i as int)),
        decreases names@.len() - i,
    {
        let ghost t = all.take(i + 1);
        assert(t.drop_last() =~= all.take(i as int));
        assert(t.last() == names@[i as int]@);
        match segment_number_of(names[i].as_str()) {
            Some(number) => {
                if number > max_number {
                    max_number = number;
                }
            },
            None => {},
        }
        i += 1;
    }
    assert(all.take(names@.len() as int) =~= all);
    max_number
}

proof fn lemma_decimal(n: nat)
    ensures
        decimal(n).len() > 0,
        all_digits(decimal(n)),
        digits_value(decimal(n)) == n,
        decimal(n)[0] != '+',
        n > 0 ==> decimal(n)[0] != '0',
        n < 10 ==> decimal(n).len() == 1,
    decreases n,
{
    if n < 10 {
        let x = decimal(n);
        assert(x.drop_last() =~= Seq::<char>::empty());
        assert(digit_char(n as int) as int == 48 + n);
        assert(digits_value(x.drop_last()) == 0);
    } else {
        lemma_decimal(n / 10);
        let x = decimal(n / 10);
        let y = decimal(n);
        let c = digit_char((n % 10) as int);
        assert(y == x.push(c));
        assert(y.drop_last() =~= x);
        assert(c as int == 48 + n % 10);
        assert((n / 10) * 10 + n % 10 == n);
        assert forall|j: int| 0 <= j < y.len() implies #[trigger] is_digit(y[j]) by {
            if j < x.len() {
                assert(y[j] == x[j]);
                assert(is_digit(x[j]));
            }
        }
        assert(y[0] == x[0]);
    }
}

/// The name of segment `n`'s file is exactly "basicdb", then the decimal
/// digits of `n` with no leading zero (a lone "0" for segment 0), then
/// ".log".
pub proof fn lemma_log_path_canonical(n: u32)
    ensures
        ({
            let s = log_path_spec(n);
            let len = s.len() as int;
            &&& len >= 12
            &&& s.subrange(0, 7) == seq!['b', 'a', 's', 'i', 'c', 'd', 'b']
            &&& s.subrange(len - 4, len) == seq!['.', 'l', 'o', 'g']
            &&& forall|i: int| 7 <= i < len - 4 ==> 48 <= #[trigger] s[i] as int <= 57
            &&& digits_value(s.subrange(7, len - 4)) == n
            &&& (s[7] == '0' ==> len == 12)
        }),
{
    let d = decimal(n as nat);
    lemma_decimal(n as nat);
    let s = log_path_spec(n);
    let len = s.len() as int;
    assert(s.subrange(0, 7) =~= seq!['b', 'a', 's', 'i', 'c', 'd', 'b']);
    assert(s.subrange(len - 4, len) =~= seq!['.', 'l', 'o', 'g']);
    assert(s.subrange(7, len - 4) =~= d);
    assert forall|i: int| 7 <= i < len - 4 implies 48 <= #[trigger] s[i] as int <= 57 by {
        assert(s[i] == d[i - 7]);
        assert(is_digit(d[i - 7]));
    }
    assert(s[7] == d[0]);
}

/// The name of segment `n`'s file stands for `n`: scanning a directory finds
/// every segment file that `get_log_path` names.
pub proof fn lemma_log_path_names_segment(n: u32)
    ensures
        segment_of_name(log_path_spec(n)) == Some(n),
{
    let d = decimal(n as nat);
    lemma_decimal(n as nat);
    let s = log_path_spec(n);
    let len = s.len() as int;
    assert(s.subrange(0, 7) =~= base_name());
    assert(s.subrange(len - 4, len) =~= log_suffix());
    assert(s.subrange(7, len - 4) =~= d);
    assert(unsigned_part(d) == d);
}

/// The compaction file is not taken for a segment file.
pub proof fn lemma_compact_name_not_segment()
    ensures
        segment_of_name(compact_name()) == None::<u32>,
{
    let s = compact_name();
    let len = s.len() as int;
    assert(s.subrange(0, 7) =~= base_name());
    assert(s.subrange(len - 4, len) =~= log_suffix());
    let m = s.subrange(7, len - 4);
    assert(m[0] == '_');
    assert(!is_digit(m[0]));
    assert(unsigned_part(m) == m);
}

/// The scan's result is at least the number of every segment file listed,
/// and it is either 0 or the number of a listed segment file.
pub proof fn lemma_highest_segment_is_max(names: Seq<Seq<char>>)
    ensures
        forall|i: int|
            0 <= i < names.len() && #[trigger] segment_of_name(names[i]) is Some ==> segment_of_name(
                names[i],
            )->0 <= highest_segment_spec(names),
        highest_segment_spec(names) == 0 || exists|i: int|
            0 <= i < names.len() && #[trigger] segment_of_name(names[i]) == Some(
                highest_segment_spec(names),
            ),
    decreases names.len(),
{
    if names.len() > 0 {
        let p = names.drop_last();
        lemma_highest_segment_is_max(p);
        assert forall|i: int|
            0 <= i < names.len() && #[trigger] segment_of_name(names[i]) is Some implies segment_of_name(
                names[i],
            )->0 <= highest_segment_spec(names) by {
            if i < p.len() {
                assert(names[i] == p[i]);
            }
        }
        let h = highest_segment_spec(names);
        if h != 0 {
            if h == highest_segment_spec(p) {
                let i = choose|i: int| 0 <= i < p.len() && #[trigger] segment_of_name(p[i]) == Some(
                    highest_segment_spec(p),
                );
                assert(names[i] == p[i]);
            } else {
                assert(segment_of_name(names[names.len() - 1]) == Some(h));
            }
        }
    }
}

} // verus!
