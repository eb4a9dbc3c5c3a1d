//! The entries of a directory listing: the file system hands out a directory as
//! text, one line per entry, `name size d` for a directory and `name size f` (or
//! anything else) for a file.

use vstd::prelude::*;
use vstd::string::StrSliceExecFns;

verus! {

/// An entry of a directory.
#[derive(Debug)]
pub struct DirEntry {
    pub is_dir: bool,
    pub size: usize,
    pub file_name: String,
}

/// The characters that Unicode counts as white space, which trimming removes.
pub open spec fn is_white_space(c: char) -> bool {
    let u = c as u32;
    ||| 0x9 <= u <= 0xD
    ||| u == 0x20
    ||| u == 0x85
    ||| u == 0xA0
    ||| u == 0x1680
    ||| 0x2000 <= u <= 0x200A
    ||| u == 0x2028
    ||| u == 0x2029
    ||| u == 0x202F
    ||| u == 0x205F
    ||| u == 0x3000
}

/// How many white space characters `c` starts with.
pub open spec fn leading_ws(c: Seq<char>) -> nat
    decreases c.len(),
{
    if c.len() > 0 && is_white_space(c[0]) {
        1 + leading_ws(c.drop_first())
    } else {
        0
    }
}

/// How many white space characters `c` ends with.
pub open spec fn trailing_ws(c: Seq<char>) -> nat
    decreases c.len(),
{
    if c.len() > 0 && is_white_space(c.last()) {
        1 + trailing_ws(c.drop_last())
    } else {
        0
    }
}

/// `c` without the white space at its ends.
pub open spec fn trimmed(c: Seq<char>) -> Seq<char> {
    let r = c.subrange(leading_ws(c) as int, c.len() as int);
    r.subrange(0, r.len() - trailing_ws(r))
}

/// The position of the first space in `s`, if there is one.
#[verifier::opaque]
pub open spec fn first_space(s: Seq<char>) -> Option<int> {
    if exists|i: int| 0 <= i < s.len() && s[i] == ' ' {
        Some(choose|i: int| 0 <= i < s.len() && s[i] == ' ' && forall|j: int| 0 <= j < i ==> s[j] != ' ')
    } else {
        None
    }
}

/// The name, the size and the kind of an entry line: the trimmed line split at its
/// first two spaces, when it has two.
pub open spec fn entry_fields(line: Seq<char>) -> Option<(Seq<char>, Seq<char>, Seq<char>)> {
    let t = trimmed(line);
    match first_space(t) {
        None => None,
        Some(i) => {
            let rest = t.subrange(i + 1, t.len() as int);
            match first_space(rest) {
                None => None,
                Some(j) => Some((t.subrange(0, i), rest.subrange(0, j), rest.subrange(j + 1, rest.len() as int))),
            }
        },
    }
}

pub open spec fn is_digit(c: char) -> bool {
    '0' as u32 <= c as u32 <= '9' as u32
}

/// The number that the decimal digits `d` write.
pub open spec fn digits_value(d: Seq<char>) -> nat
    decreases d.len(),
{
    if d.len() == 0 {
        0
    } else {
        digits_value(d.drop_last()) * 10 + (d.last() as u32 - '0' as u32) as nat
    }
}

/// The digits of a number, after a leading `+`.
pub open spec fn number_digits(s: Seq<char>) -> Seq<char> {
    if s.len() > 1 && s[0] == '+' {
        s.drop_first()
    } else {
        s
    }
}

/// Does `s` read as a `usize`: an optional `+` and at least one decimal digit, of a
/// value that fits?
pub open spec fn parses_as_usize(s: Seq<char>) -> bool {
    let d = number_digits(s);
    &&& d.len() > 0
    &&& forall|i: int| 0 <= i < d.len() ==> is_digit(#[trigger] d[i])
    &&& digits_value(d) <= usize::MAX
}

/// The lines that an entry is read from without a panic: a size that reads as a
/// number wherever the line has the three fields.
pub open spec fn dir_entry_ok(line: Seq<char>) -> bool {
    entry_fields(line) matches Some(f) ==> parses_as_usize(f.1)
}

fn is_white_space_exec(c: char) -> (r: bool)
    ensures
        r == is_white_space(c),
{
    let u = c as u32;
    (0x9 <= u && u <= 0xD) || u == 0x20 || u == 0x85 || u == 0xA0 || u == 0x1680 || (0x2000 <= u && u
        <= 0x200A) || u == 0x2028 || u == 0x2029 || u == 0x202F || u == 0x205F || u == 0x3000
}

proof fn lemma_leading_ws(c: Seq<char>, a: int)
    requires
        0 <= a <= c.len(),
        forall|k: int| 0 <= k < a ==> is_white_space(#[trigger] c[k]),
        a == c.len() || !is_white_space(c[a]),
    ensures
        leading_ws(c) == a,
    decreases a,
{
    if a > 0 {
        let d = c.drop_first();
        assert forall|k: int| 0 <= k < a - 1 implies is_white_space(#[trigger] d[k]) by {
            assert(d[k] == c[k + 1]);
        }
        if a < c.len() {
            assert(d[a - 1] == c[a]);
        }
        lemma_leading_ws(d, a - 1);
    }
}

proof fn lemma_trailing_ws(c: Seq<char>, b: int)
    requires
        0 <= b <= c.len(),
        forall|k: int| b <= k < c.len() ==> is_white_space(#[trigger] c[k]),
        b == 0 || !is_white_space(c[b - 1]),
    ensures
        trailing_ws(c) == c.len() - b,
    decreases c.len() - b,
{
    if b < c.len() {
        let d = c.drop_last();
        assert forall|k: int| b <= k < d.len() implies is_white_space(#[trigger] d[k]) by {
            assert(d[k] == c[k]);
        }
        if b > 0 {
            assert(d[b - 1] == c[b - 1]);
        }
        lemma_trailing_ws(d, b);
    }
}

/// The position of the first space of `line` from `from` to `to`, if there is one.
fn find_space(line: &str, from: usize, to: usize) -> (r: Option<usize>)
    requires
        from <= to <= line@.len(),
    ensures
        first_space(line@.subrange(from as int, to as int)) matches Some(i) ==> r == Some((from + i) as usize),
        first_space(line@.subrange(from as int, to as int)) is None ==> r is None,
        r matches Some(k) ==> from <= k < to && first_space(line@.subrange(from as int, to as int)) == Some(
            k - from,
        ),
{
    let ghost s = line@.subrange(from as int, to as int);
    proof {
        reveal(first_space);
    }
    let mut k = from;
    while k < to
        invariant
            from <= k <= to <= line@.len(),
            s == line@.subrange(from as int, to as int),
            forall|j: int| 0 <= j < k - from ==> s[j] != ' ',
        decreases to - k,
    {
        if line.get_char(k) == ' ' {
            proof {
                reveal(first_space);
                let i = (k - from) as int;
                assert(s[i] == ' ');
                let c = choose|c: int| 0 <= c < s.len() && s[c] == ' ' && forall|j: int| 0 <= j < c ==> s[j] != ' ';
                if c < i {
                } else if c > i {
                    assert(s[i] != ' ');
                }
            }
            return Some(k);
        }
        assert(s[(k - from) as int] == line@[k as int]);
        k = k + 1;
    }
    proof {
        reveal(first_space);
    }
    None
}

/// The number that the characters `from..to` of `line` write, which they do.
fn read_usize(line: &str, from: usize, to: usize) -> (r: usize)
    requires
        from <= to <= line@.len(),
        parses_as_usize(line@.subrange(from as int, to as int)),
    ensures
        r == digits_value(number_digits(line@.subrange(from as int, to as int))),
{
    let ghost s = line@.subrange(from as int, to as int);
    let mut k = from;
    if to - from > 1 && line.get_char(from) == '+' {
        k = from + 1;
        assert(line@.subrange(k as int, to as int) =~= s.drop_first());
    } else {
        assert(line@.subrange(k as int, to as int) =~= s);
    }
    let ghost d = number_digits(s);
    let ghost k0 = k;
    let mut v: usize = 0;
    while k < to
        invariant
            from <= k0 <= k <= to <= line@.len(),
            d == line@.subrange(k0 as int, to as int),
            forall|i: int| 0 <= i < d.len() ==> is_digit(#[trigger] d[i]),
            digits_value(d) <= usize::MAX,
            v == digits_value(d.subrange(0, k - k0)),
        decreases to - k,
    {
        let c = line.get_char(k);
        let ghost i = (k - k0) as int;
        assert(c == d[i]);
        assert(d.subrange(0, i + 1).drop_last() =~= d.subrange(0, i));
        proof {
            lemma_digits_prefix(d, i + 1);
        }
        let digit = (c as u32 - '0' as u32) as usize;
        v = v * 10 + digit;
        k = k + 1;
    }
    assert(d.subrange(0, d.len() as int) =~= d);
    v
}

/// The value of the first digits of a number is no more than the value of all of
/// them.
proof fn lemma_digits_prefix(d: Seq<char>, n: int)
    requires
        0 <= n <= d.len(),
    ensures
        digits_value(d.subrange(0, n)) <= digits_value(d),
    decreases d.len() - n,
{
    if n < d.len() {
        lemma_digits_prefix(d, n + 1);
        assert(d.subrange(0, n + 1).drop_last() =~= d.subrange(0, n));
    } else {
        assert(d.subrange(0, n) =~= d);
    }
}

/// Where the trimmed line lies in `line`.
fn trim_bounds(line: &str) -> (r: (usize, usize))
    ensures
        r.0 <= r.1 <= line@.len(),
        line@.subrange(r.0 as int, r.1 as int) == trimmed(line@),
{
    let n = line.unicode_len();
    let ghost c = line@;
    let mut a: usize = 0;
    while a < n && is_white_space_exec(line.get_char(a))
        invariant
            a <= n == c.len(),
            c == line@,
            forall|k: int| 0 <= k < a ==> is_white_space(#[trigger] c[k]),
        decreases n - a,
    {
        a = a + 1;
    }
    proof {
        lemma_leading_ws(c, a as int);
    }
    let ghost r = c.subrange(a as int, n as int);
    let mut b: usize = n;
    while b > a && is_white_space_exec(line.get_char(b - 1))
        invariant
            a <= b <= n == c.len(),
            c == line@,
            r == c.subrange(a as int, n as int),
            forall|k: int| b <= k < n ==> is_white_space(#[trigger] c[k]),
        decreases b - a,
    {
        b = b - 1;
    }
    proof {
        assert forall|k: int| b - a <= k < r.len() implies is_white_space(#[trigger] r[k]) by {
            assert(r[k] == c[a + k]);
        }
        if b > a {
            assert(r[b - a - 1] == c[b - 1]);
        }
        lemma_trailing_ws(r, (b - a) as int);
        assert(c.subrange(a as int, b as int) =~= r.subrange(0, r.len() - trailing_ws(r)));
    }
    (a, b)
}

/// Can `line` be read as an entry without a panic? See [`dir_entry_ok`].
pub fn dir_entry_ok_exec(line: &str) -> (r: bool)
    ensures
        r == dir_entry_ok(line@),
{
    match fields_of(line) {
        None => true,
        Some((a, i, j, b)) => {
            let from = i + 1;
            let to = j;
            let mut k = from;
            if to - from > 1 && line.get_char(from) == '+' {
                k = from + 1;
            }
            let ghost s = line@.subrange(from as int, to as int);
            let ghost d = number_digits(s);
            assert(to - from > 1 ==> s[0] == line@[from as int]);
            assert(line@.subrange(k as int, to as int) =~= d);
            if k == to {
                return false;
            }
            let ghost k0 = k;
            let mut v: usize = 0;
            while k < to
                invariant
                    from <= k0 <= k <= to <= line@.len(),
                    d == line@.subrange(k0 as int, to as int),
                    d == number_digits(s),
                    entry_fields(line@) is Some && (entry_fields(line@)->0).1 == s,
                    forall|q: int| 0 <= q < k - k0 ==> is_digit(#[trigger] d[q]),
                    v == digits_value(d.subrange(0, k - k0)),
                decreases to - k,
            {
                let c = line.get_char(k);
                let ghost q = (k - k0) as int;
                assert(c == d[q]);
                let u = c as u32;
                if !(0x30 <= u && u <= 0x39) {
                    assert(!is_digit(d[q]));
                    return false;
                }
                assert(d.subrange(0, q + 1).drop_last() =~= d.subrange(0, q));
                let digit = (c as u32 - '0' as u32) as usize;
                match v.checked_mul(10) {
                    Some(t) => match t.checked_add(digit) {
                        Some(w) => {
                            v = w;
                        },
                        None => {
                            proof {
                                lemma_digits_prefix(d, q + 1);
                            }
                            return false;
                        },
                    },
                    None => {
                        proof {
                            lemma_digits_prefix(d, q + 1);
                        }
                        return false;
                    },
                }
                k = k + 1;
            }
            assert(d.subrange(0, d.len() as int) =~= d);
            true
        },
    }
}

/// Where the fields of an entry line lie: the trimmed line is `a..b`, its first
/// space at `i` and the next one at `j`.
#[verifier::rlimit(30)]
fn fields_of(line: &str) -> (r: Option<(usize, usize, usize, usize)>)
    ensures
        r is None <==> entry_fields(line@) is None,
        r matches Some(p) ==> p.0 <= p.1 < p.2 < p.3 <= line@.len() && entry_fields(line@) == Some(
            (
                line@.subrange(p.0 as int, p.1 as int),
                line@.subrange(p.1 + 1, p.2 as int),
                line@.subrange(p.2 + 1, p.3 as int),
            ),
        ),
{
    let (a, b) = trim_bounds(line);
    let ghost t = line@.subrange(a as int, b as int);
    assert(t == trimmed(line@));
    match find_space(line, a, b) {
        None => {
            assert(first_space(t) is None);
            None
        },
        Some(i) => {
            let ghost i0 = i - a;
            assert(first_space(t) == Some(i0));
            let ghost rest = t.subrange(i0 + 1, t.len() as int);
            assert(rest =~= line@.subrange(i + 1, b as int));
            match find_space(line, i + 1, b) {
                None => {
                    assert(first_space(rest) is None);
                    None
                },
                Some(j) => {
                    let ghost j0 = j - i - 1;
                    assert(first_space(rest) == Some(j0));
                    assert(t.subrange(0, i0) =~= line@.subrange(a as int, i as int));
                    assert(rest.subrange(0, j0) =~= line@.subrange(i + 1, j as int));
                    assert(rest.subrange(j0 + 1, rest.len() as int) =~= line@.subrange(j + 1, b as int));
                    Some((a, i, j, b))
                },
            }
        },
    }
}

/// Read an entry of a directory listing from one of its lines; nothing when the line
/// does not have the three fields.
pub fn parse_dir_entry(line: &str) -> (r: Option<DirEntry>)
    requires
        dir_entry_ok(line@),
    ensures
        entry_fields(line@) is None ==> r is None,
        entry_fields(line@) matches Some(f) ==> r matches Some(e) && e.file_name@ == f.0 && e.size
            == digits_value(number_digits(f.1)) && e.is_dir == (f.2 == seq!['d']),
{
    match fields_of(line) {
        None => None,
        Some((a, i, j, b)) => {
            let size = read_usize(line, i + 1, j);
            let is_dir = b - j == 2 && line.get_char(j + 1) == 'd';
            proof {
                let k = line@.subrange(j + 1, b as int);
                if b - j == 2 {
                    assert(k[0] == line@[j + 1]);
                    if is_dir {
                        assert(k =~= seq!['d']);
                    } else {
                        assert(k[0] != seq!['d'][0]);
                    }
                } else {
                    assert(k.len() == b - j - 1);
                    assert(k.len() != 1);
                    assert(k != seq!['d']);
                }
            }
            let file_name = line.substring_char(a, i).to_owned();
            Some(DirEntry { is_dir, size, file_name })
        },
    }
}

} // verus!
