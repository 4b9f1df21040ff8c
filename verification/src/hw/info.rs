//! What the device page shows about the system, read from text: the laptop's
//! model name, the processor's name and thread count from `/proc/cpuinfo`,
//! and the distribution's name from `/etc/os-release`.

use vstd::prelude::*;
use vstd::string::StrSliceExecFns;
use crate::scan::{chars_of, find_char, find_in, lemma_find_char, starts_with_lit, trim, trim_range};

verus! {

/// The line that starts at `i`: where its text stops and where the next line
/// starts. A line ends at `'\n'` or at the end of the text, and a `'\r'`
/// right before the `'\n'` is not part of it.
pub open spec fn line_at_spec(s: Seq<char>, i: int) -> (int, int) {
    let e = i + find_char(s.subrange(i, s.len() as int), '\n', 0);
    let stop = if e < s.len() && e > i && s[e - 1] == '\r' {
        e - 1
    } else {
        e
    };
    (stop, if e < s.len() { e + 1 } else { e })
}

/// A line stops within the text, and the next one starts after it.
pub proof fn lemma_line_at(s: Seq<char>, i: int)
    requires
        0 <= i < s.len(),
    ensures
        i <= line_at_spec(s, i).0 <= s.len(),
        i < line_at_spec(s, i).1 <= s.len(),
{
    lemma_find_char(s.subrange(i, s.len() as int), '\n', 0);
}

/// The lines of `s` from index `i` on, as `str::lines` gives them.
pub open spec fn lines_from(s: Seq<char>, i: int) -> Seq<Seq<char>>
    decreases s.len() - i,
{
    if i < 0 || i >= s.len() {
        Seq::empty()
    } else {
        let (stop, next) = line_at_spec(s, i);
        proof {
            lemma_line_at(s, i);
        }
        seq![s.subrange(i, stop)] + lines_from(s, next)
    }
}

/// The line that starts at `i`.
fn line_at(cs: &Vec<char>, i: usize) -> (r: (usize, usize))
    requires
        i < cs@.len(),
    ensures
        (r.0 as int, r.1 as int) == line_at_spec(cs@, i as int),
        i <= r.0 <= cs@.len(),
        i < r.1 <= cs@.len(),
        lines_from(cs@, i as int) == seq![cs@.subrange(i as int, r.0 as int)] + lines_from(
            cs@,
            r.1 as int,
        ),
{
    proof {
        lemma_line_at(cs@, i as int);
    }
    let n = cs.len();
    let e = find_in(cs, i, n, '\n');
    let stop = if e < n && e > i && cs[e - 1] == '\r' {
        e - 1
    } else {
        e
    };
    (stop, if e < n { e + 1 } else { e })
}

/// `l` begins with `p`.
pub open spec fn starts(l: Seq<char>, p: Seq<char>) -> bool {
    l.len() >= p.len() && l.subrange(0, p.len() as int) == p
}

/// Number of the lines that begin with `processor`.
pub open spec fn processor_lines(ls: Seq<Seq<char>>) -> nat
    decreases ls.len(),
{
    if ls.len() == 0 {
        0
    } else {
        (if starts(ls[0], "processor"@) {
            1nat
        } else {
            0nat
        }) + processor_lines(ls.drop_first())
    }
}

/// Number of the processor's threads: the lines of `/proc/cpuinfo` that
/// begin with `processor`.
pub fn cpu_threads(cpuinfo: &str) -> (n: usize)
    ensures
        n == processor_lines(lines_from(cpuinfo@, 0)),
{
    let cs = chars_of(cpuinfo);
    let len = cs.len();
    let mut i: usize = 0;
    let mut count: usize = 0;
    while i < len
        invariant
            cs@ == cpuinfo@,
            len == cs@.len(),
            i <= len,
            count <= i,
            processor_lines(lines_from(cs@, 0)) == count + processor_lines(lines_from(cs@, i as int)),
        decreases len - i,
    {
        let (stop, next) = line_at(&cs, i);
        let ghost line = cs@.subrange(i as int, stop as int);
        let ghost rest = lines_from(cs@, next as int);
        assert((seq![line] + rest)[0] == line);
        assert((seq![line] + rest).drop_first() =~= rest);
        proof {
            reveal_strlit("processor");
        }
        if starts_with_lit(&cs, i, stop, "processor") {
            assert(line.subrange(0, 9) =~= cs@.subrange(i as int, i + 9));
            count = count + 1;
        } else {
            assert(line.len() >= 9 ==> line.subrange(0, 9) =~= cs@.subrange(i as int, i + 9));
        }
        i = next;
    }
    count
}

/// Where a line that begins with `model name` has its value: after the
/// first `:` that follows.
pub open spec fn cpu_from(ls: Seq<Seq<char>>) -> Option<Seq<char>>
    decreases ls.len(),
{
    if ls.len() == 0 {
        None
    } else {
        let l = ls[0];
        let r = l.skip(10);
        let c = find_char(r, ':', 0);
        if starts(l, "model name"@) && c < r.len() {
            Some(trim(r.skip(c + 1)))
        } else {
            cpu_from(ls.drop_first())
        }
    }
}

/// `s` with each `pat` taken out, from left to right, as `str::replace`
/// with an empty replacement gives it.
pub open spec fn remove_all(s: Seq<char>, pat: Seq<char>) -> Seq<char>
    decreases s.len(),
{
    if s.len() == 0 {
        s
    } else if pat.len() > 0 && starts(s, pat) {
        remove_all(s.skip(pat.len() as int), pat)
    } else {
        seq![s[0]] + remove_all(s.drop_first(), pat)
    }
}

/// The processor's name: the value of the first `model name` line of
/// `/proc/cpuinfo`, trimmed, without `(R)` and `(TM)`; empty when there is
/// none.
pub open spec fn cpu_name_spec(cpuinfo: Seq<char>) -> Seq<char> {
    match cpu_from(lines_from(cpuinfo, 0)) {
        Some(v) => remove_all(remove_all(v, "(R)"@), "(TM)"@),
        None => Seq::empty(),
    }
}

/// `text[from..to]` with each `pat` taken out.
fn remove_all_in(text: &str, from: usize, to: usize, pat: &str) -> (r: String)
    requires
        from <= to <= text@.len(),
        pat@.len() > 0,
    ensures
        r@ == remove_all(text@.subrange(from as int, to as int), pat@),
{
    let cs = chars_of(text);
    let p = chars_of(pat);
    let mut out = String::new();
    let mut j = from;
    while j < to
        invariant
            cs@ == text@,
            p@ == pat@,
            p@.len() > 0,
            from <= j <= to <= cs@.len(),
            out@ + remove_all(cs@.subrange(j as int, to as int), pat@) == remove_all(
                cs@.subrange(from as int, to as int),
                pat@,
            ),
        decreases to - j,
    {
        let ghost t = cs@.subrange(j as int, to as int);
        if starts_with_lit(&cs, j, to, pat) {
            assert(t.subrange(0, p@.len() as int) =~= cs@.subrange(j as int, j + p@.len()));
            assert(t.skip(p@.len() as int) =~= cs@.subrange(j + p@.len(), to as int));
            j = j + p.len();
        } else {
            assert(t.len() >= p@.len() ==> t.subrange(0, p@.len() as int) =~= cs@.subrange(
                j as int,
                j + p@.len(),
            ));
            assert(t.drop_first() =~= cs@.subrange(j + 1, to as int));
            let ghost before = out@;
            out.append(text.substring_char(j, j + 1));
            assert(text@.subrange(j as int, j + 1) =~= seq![t[0]]);
            assert(out@ + remove_all(t.drop_first(), pat@) =~= before + (seq![t[0]] + remove_all(
                t.drop_first(),
                pat@,
            )));
            j = j + 1;
        }
    }
    assert(out@ + remove_all(cs@.subrange(j as int, to as int), pat@) =~= out@);
    out
}

/// The processor's name from the text of `/proc/cpuinfo`.
pub fn cpu_name(cpuinfo: &str) -> (r: String)
    ensures
        r@ == cpu_name_spec(cpuinfo@),
{
    let cs = chars_of(cpuinfo);
    let len = cs.len();
    let mut i: usize = 0;
    while i < len
        invariant
            cs@ == cpuinfo@,
            len == cs@.len(),
            i <= len,
            cpu_from(lines_from(cs@, 0)) == cpu_from(lines_from(cs@, i as int)),
        decreases len - i,
    {
        let (stop, next) = line_at(&cs, i);
        let ghost line = cs@.subrange(i as int, stop as int);
        let ghost rest = lines_from(cs@, next as int);
        assert((seq![line] + rest)[0] == line);
        assert((seq![line] + rest).drop_first() =~= rest);
        proof {
            reveal_strlit("model name");
            reveal_strlit("(R)");
            reveal_strlit("(TM)");
        }
        if starts_with_lit(&cs, i, stop, "model name") {
            assert(line.subrange(0, 10) =~= cs@.subrange(i as int, i + 10));
            let c = find_in(&cs, i + 10, stop, ':');
            assert(line.skip(10) =~= cs@.subrange(i + 10, stop as int));
            if c < stop {
                let (a, b) = trim_range(&cs, c + 1, stop);
                assert(line.skip(10).skip(c - i - 10 + 1) =~= cs@.subrange(c + 1, stop as int));
                assert(cpu_from(lines_from(cs@, i as int)) == Some(
                    trim(cs@.subrange(c + 1, stop as int)),
                ));
                let once = remove_all_in(cpuinfo, a, b, "(R)");
                let olen = chars_of(once.as_str()).len();
                assert(once@.subrange(0, olen as int) =~= once@);
                return remove_all_in(once.as_str(), 0, olen, "(TM)");
            }
        } else {
            assert(line.len() >= 10 ==> line.subrange(0, 10) =~= cs@.subrange(i as int, i + 10));
        }
        i = next;
    }
    String::new()
}

/// `s` without `c` at its start.
pub open spec fn strip_start(s: Seq<char>, c: char) -> Seq<char>
    decreases s.len(),
{
    if s.len() > 0 && s[0] == c {
        strip_start(s.drop_first(), c)
    } else {
        s
    }
}

/// `s` without `c` at its end.
pub open spec fn strip_end(s: Seq<char>, c: char) -> Seq<char>
    decreases s.len(),
{
    if s.len() > 0 && s.last() == c {
        strip_end(s.drop_last(), c)
    } else {
        s
    }
}

/// The value of the first `PRETTY_NAME=` line, as `trim_matches('"')` leaves it.
pub open spec fn os_from(ls: Seq<Seq<char>>) -> Option<Seq<char>>
    decreases ls.len(),
{
    if ls.len() == 0 {
        None
    } else if starts(ls[0], "PRETTY_NAME="@) {
        Some(strip_end(strip_start(ls[0].skip(12), '"'), '"'))
    } else {
        os_from(ls.drop_first())
    }
}

/// The distribution's name from the text of `/etc/os-release`; empty when
/// it has no `PRETTY_NAME=` line.
pub fn os_name(os_release: &str) -> (r: String)
    ensures
        r@ == match os_from(lines_from(os_release@, 0)) {
            Some(v) => v,
            None => Seq::empty(),
        },
{
    let cs = chars_of(os_release);
    let len = cs.len();
    let mut i: usize = 0;
    while i < len
        invariant
            cs@ == os_release@,
            len == cs@.len(),
            i <= len,
            os_from(lines_from(cs@, 0)) == os_from(lines_from(cs@, i as int)),
        decreases len - i,
    {
        let (stop, next) = line_at(&cs, i);
        let ghost line = cs@.subrange(i as int, stop as int);
        let ghost rest = lines_from(cs@, next as int);
        assert((seq![line] + rest)[0] == line);
        assert((seq![line] + rest).drop_first() =~= rest);
        proof {
            reveal_strlit("PRETTY_NAME=");
        }
        if starts_with_lit(&cs, i, stop, "PRETTY_NAME=") {
            assert(line.subrange(0, 12) =~= cs@.subrange(i as int, i + 12));
            assert(line.skip(12) =~= cs@.subrange(i + 12, stop as int));
            let mut a = i + 12;
            while a < stop && cs[a] == '"'
                invariant
                    i + 12 <= a <= stop <= cs@.len(),
                    strip_start(line.skip(12), '"') == strip_start(
                        cs@.subrange(a as int, stop as int),
                        '"',
                    ),
                decreases stop - a,
            {
                assert(cs@.subrange(a as int, stop as int).drop_first() =~= cs@.subrange(
                    a + 1,
                    stop as int,
                ));
                a = a + 1;
            }
            assert(strip_start(cs@.subrange(a as int, stop as int), '"') == cs@.subrange(
                a as int,
                stop as int,
            ));
            let mut b = stop;
            while b > a && cs[b - 1] == '"'
                invariant
                    a <= b <= stop <= cs@.len(),
                    strip_end(cs@.subrange(a as int, stop as int), '"') == strip_end(
                        cs@.subrange(a as int, b as int),
                        '"',
                    ),
                decreases b - a,
            {
                assert(cs@.subrange(a as int, b as int).drop_last() =~= cs@.subrange(
                    a as int,
                    b - 1,
                ));
                b = b - 1;
            }
            return os_release.substring_char(a, b).to_owned();
        } else {
            assert(line.len() >= 12 ==> line.subrange(0, 12) =~= cs@.subrange(i as int, i + 12));
        }
        i = next;
    }
    String::new()
}

/// A character of a machine type: an ASCII digit or capital letter.
pub open spec fn is_type_char(c: char) -> bool {
    ('0' <= c && c <= '9') || ('A' <= c && c <= 'Z')
}

/// The model name: the DMI product version, unless it is empty or looks like
/// a machine type (only digits and capitals), when the product family is
/// taken.
pub fn model_name(version: &str, family: &str) -> (r: String)
    ensures
        r@ == (if forall|i: int| 0 <= i < version@.len() ==> is_type_char(#[trigger] version@[i]) {
            family@
        } else {
            version@
        }),
{
    let cs = chars_of(version);
    let mut k: usize = 0;
    while k < cs.len()
        invariant
            cs@ == version@,
            k <= cs@.len(),
            forall|i: int| 0 <= i < k ==> is_type_char(#[trigger] cs@[i]),
        decreases cs@.len() - k,
    {
        let c = cs[k];
        if !(('0' <= c && c <= '9') || ('A' <= c && c <= 'Z')) {
            return version.to_owned();
        }
        k = k + 1;
    }
    family.to_owned()
}

} // verus!
