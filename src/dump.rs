use vstd::prelude::*;
use vstd::utf8::{decode_utf8, valid_utf8};

use crate::attrs::{lemma_names_distinct, Attr, AttributeMap, ATTR_COUNT};
use crate::text::{chars_of, decode_text, string_from_chars};

verus! {

/// Why a dump gave no attributes.
#[derive(Debug)]
pub enum DumpError {
    /// The tool's output, or its diagnostics, are not well-formed UTF-8.
    Encoding,
    /// The dump holds no `name=value` pair; carries the tool's diagnostics.
    Empty(String),
}

/// `l` without one trailing carriage return.
pub open spec fn strip_cr(l: Seq<char>) -> Seq<char> {
    if l.len() > 0 && l.last() == '\r' {
        l.drop_last()
    } else {
        l
    }
}

/// The lines that end in a newline so far, and the unfinished line after them.
pub open spec fn split_state(s: Seq<char>) -> (Seq<Seq<char>>, Seq<char>)
    decreases s.len(),
{
    if s.len() == 0 {
        (Seq::empty(), Seq::empty())
    } else {
        let prev = split_state(s.drop_last());
        if s.last() == '\n' {
            (prev.0.push(strip_cr(prev.1)), Seq::empty())
        } else {
            (prev.0, prev.1.push(s.last()))
        }
    }
}

/// The lines of `s`: split at `\n` or `\r\n`, the last terminator optional.
pub open spec fn lines_of(s: Seq<char>) -> Seq<Seq<char>> {
    let st = split_state(s);
    if st.1.len() == 0 {
        st.0
    } else {
        st.0.push(st.1)
    }
}

/// Position of the first `=` at or after `i`, or the length when there is none.
pub open spec fn find_eq(line: Seq<char>, i: int) -> int
    decreases line.len() - i,
{
    if i >= line.len() {
        line.len() as int
    } else if line[i] == '=' {
        i
    } else {
        find_eq(line, i + 1)
    }
}

/// The value with one enclosing pair of single quotes removed. A value that is
/// a lone quote counts as enclosed and becomes empty.
pub open spec fn unquote(v: Seq<char>) -> Seq<char> {
    if v.len() > 0 && v[0] == '\'' && v.last() == '\'' {
        if v.len() >= 2 {
            v.subrange(1, v.len() - 1)
        } else {
            Seq::empty()
        }
    } else {
        v
    }
}

/// The name and unquoted value of a dump line, split at its first `=`; none
/// when it has no `=` or nothing after it.
pub open spec fn line_pair(line: Seq<char>) -> Option<(Seq<char>, Seq<char>)> {
    let p = find_eq(line, 0);
    if p >= line.len() || p + 1 == line.len() {
        None
    } else {
        Some((line.take(p), unquote(line.skip(p + 1))))
    }
}

/// Whether some line gives a pair.
pub open spec fn has_pair(ls: Seq<Seq<char>>) -> bool
    decreases ls.len(),
{
    if ls.len() == 0 {
        false
    } else {
        line_pair(ls.last()) is Some || has_pair(ls.drop_last())
    }
}

/// The value of the last pair named `name`, if any.
pub open spec fn last_value(ls: Seq<Seq<char>>, name: Seq<char>) -> Option<Seq<char>>
    decreases ls.len(),
{
    if ls.len() == 0 {
        None
    } else {
        match line_pair(ls.last()) {
            Some(pr) => if pr.0 == name {
                Some(pr.1)
            } else {
                last_value(ls.drop_last(), name)
            },
            None => last_value(ls.drop_last(), name),
        }
    }
}

/// The attributes that a dump text gives: for each one, its last value.
pub open spec fn dump_holds(m: AttributeMap, text: Seq<char>) -> bool {
    forall|a: Attr| #[trigger] m.spec_get(a) == last_value(lines_of(text), a.spec_name())
}

fn chars_eq(a: &[char], b: &[char]) -> (r: bool)
    ensures
        r == (a@ == b@),
{
    if a.len() != b.len() {
        return false;
    }
    let mut i: usize = 0;
    while i < a.len()
        invariant
            a@.len() == b@.len(),
            i <= a.len(),
            forall|k: int| 0 <= k < i ==> a@[k] == b@[k],
        decreases a.len() - i,
    {
        if a[i] != b[i] {
            return false;
        }
        i = i + 1;
    }
    assert(a@ =~= b@);
    true
}

fn sub_chars(v: &[char], lo: usize, hi: usize) -> (r: Vec<char>)
    requires
        lo <= hi <= v@.len(),
    ensures
        r@ == v@.subrange(lo as int, hi as int),
{
    let mut out: Vec<char> = Vec::new();
    let mut i: usize = lo;
    while i < hi
        invariant
            lo <= i <= hi <= v@.len(),
            out@ == v@.subrange(lo as int, i as int),
        decreases hi - i,
    {
        out.push(v[i]);
        i = i + 1;
        assert(out@ =~= v@.subrange(lo as int, i as int));
    }
    out
}

/// The recognised attribute called `name`, if any.
pub fn attr_named(name: &[char]) -> (r: Option<Attr>)
    ensures
        r matches Some(a) ==> a.spec_name() == name@,
        r is None ==> forall|a: Attr| #[trigger] a.spec_name() != name@,
{
    let mut i: usize = 0;
    while i < ATTR_COUNT
        invariant
            i <= ATTR_COUNT,
            forall|a: Attr| a.index() < i ==> #[trigger] a.spec_name() != name@,
        decreases ATTR_COUNT - i,
    {
        let a = Attr::from_index(i);
        let cs = chars_of(a.name());
        if chars_eq(&cs, name) {
            return Some(a);
        }
        i = i + 1;
    }
    None
}

fn unquote_chars(v: &[char]) -> (r: Vec<char>)
    ensures
        r@ == unquote(v@),
{
    let n = v.len();
    if n > 0 && v[0] == '\'' && v[n - 1] == '\'' {
        if n >= 2 {
            sub_chars(v, 1, n - 1)
        } else {
            Vec::new()
        }
    } else {
        sub_chars(v, 0, n)
    }
}

/// A dump value with one enclosing pair of single quotes removed.
pub fn strip_quotes(value: &str) -> (r: String)
    ensures
        r@ == unquote(value@),
{
    let cs = chars_of(value);
    let u = unquote_chars(&cs);
    string_from_chars(&u)
}

/// Records the pair of one dump line in `m`; returns whether the line has one.
fn take_line(line: &[char], m: &mut AttributeMap) -> (r: bool)
    ensures
        r == line_pair(line@) is Some,
        forall|a: Attr| #[trigger]
            final(m).spec_get(a) == match line_pair(line@) {
                Some(pr) => if pr.0 == a.spec_name() {
                    Some(pr.1)
                } else {
                    old(m).spec_get(a)
                },
                None => old(m).spec_get(a),
            },
{
    let n = line.len();
    let mut p: usize = 0;
    while p < n && line[p] != '='
        invariant
            p <= n == line@.len(),
            find_eq(line@, p as int) == find_eq(line@, 0),
        decreases n - p,
    {
        p = p + 1;
    }
    if p >= n || p + 1 == n {
        return false;
    }
    let name = sub_chars(line, 0, p);
    let raw = sub_chars(line, p + 1, n);
    assert(name@ =~= line@.take(p as int));
    assert(raw@ =~= line@.skip(p + 1));
    match attr_named(&name) {
        Some(a) => {
            let value = unquote_chars(&raw);
            let s = string_from_chars(&value);
            m.insert(a, s);
            proof {
                assert forall|b: Attr| b.spec_name() == a.spec_name() implies b == a by {
                    lemma_names_distinct(a, b);
                }
            }
        },
        None => {},
    }
    true
}

fn strip_cr_chars(l: &[char]) -> (r: Vec<char>)
    ensures
        r@ == strip_cr(l@),
{
    let n = l.len();
    if n > 0 && l[n - 1] == '\r' {
        sub_chars(l, 0, n - 1)
    } else {
        let r = sub_chars(l, 0, n);
        assert(r@ =~= l@);
        r
    }
}

/// The recognised attributes of a dump text, each with the value of its last
/// `name=value` line; none when no line of the text holds a pair at all.
pub fn parse_dump(text: &str) -> (r: Option<AttributeMap>)
    ensures
        r is None <==> !has_pair(lines_of(text@)),
        r matches Some(m) ==> dump_holds(m, text@),
{
    let cs = chars_of(text);
    let mut m = AttributeMap::new();
    let mut found = false;
    let mut cur: Vec<char> = Vec::new();
    let ghost mut done: Seq<Seq<char>> = Seq::empty();
    let mut i: usize = 0;
    assert(cs@.take(0) =~= Seq::<char>::empty());
    while i < cs.len()
        invariant
            i <= cs@.len(),
            cs@ == text@,
            split_state(cs@.take(i as int)) == (done, cur@),
            found == has_pair(done),
            forall|a: Attr| #[trigger] m.spec_get(a) == last_value(done, a.spec_name()),
        decreases cs.len() - i,
    {
        let c = cs[i];
        assert(cs@.take(i + 1).drop_last() =~= cs@.take(i as int));
        if c == '\n' {
            let line = strip_cr_chars(&cur);
            let got = take_line(&line, &mut m);
            found = found || got;
            proof {
                let old_done = done;
                done = done.push(line@);
                assert(done.drop_last() =~= old_done);
            }
            cur = Vec::new();
        } else {
            cur.push(c);
        }
        i = i + 1;
    }
    assert(cs@.take(cs@.len() as int) =~= cs@);
    if cur.len() > 0 {
        let got = take_line(&cur, &mut m);
        found = found || got;
        proof {
            let old_done = done;
            done = done.push(cur@);
            assert(done.drop_last() =~= old_done);
        }
    }
    if found {
        Some(m)
    } else {
        None
    }
}

/// The recognised attributes of the lease tool's output `out`. When that
/// holds no pair, the error carries the tool's diagnostics `diag`.
pub fn extract_attributes(out: &[u8], diag: &[u8]) -> (r: Result<AttributeMap, DumpError>)
    ensures
        !valid_utf8(out@) ==> r is Err && r->Err_0 is Encoding,
        valid_utf8(out@) && has_pair(lines_of(decode_utf8(out@))) ==> r is Ok && dump_holds(
            r->Ok_0,
            decode_utf8(out@),
        ),
        valid_utf8(out@) && !has_pair(lines_of(decode_utf8(out@))) ==> r is Err && (
        match r->Err_0 {
            DumpError::Empty(d) => valid_utf8(diag@) && d@ == decode_utf8(diag@),
            DumpError::Encoding => !valid_utf8(diag@),
        }),
{
    let text = match decode_text(out) {
        Some(t) => t,
        None => {
            return Err(DumpError::Encoding);
        },
    };
    match parse_dump(text.as_str()) {
        Some(m) => Ok(m),
        None => match decode_text(diag) {
            Some(d) => Err(DumpError::Empty(d)),
            None => Err(DumpError::Encoding),
        },
    }
}

/// Whether line `l` holds a pair called `name`.
pub open spec fn pair_named(l: Seq<char>, name: Seq<char>) -> bool {
    line_pair(l) matches Some(pr) && pr.0 == name
}

/// The last pair called `name` gives the value.
proof fn lemma_last_value_at(ls: Seq<Seq<char>>, name: Seq<char>, i: int)
    requires
        0 <= i < ls.len(),
        pair_named(ls[i], name),
        forall|k: int| i < k < ls.len() ==> !pair_named(#[trigger] ls[k], name),
    ensures
        last_value(ls, name) == Some(line_pair(ls[i])->Some_0.1),
    decreases ls.len(),
{
    if i < ls.len() - 1 {
        let f = ls.drop_last();
        assert(!pair_named(ls[ls.len() - 1], name));
        assert forall|k: int| i < k < f.len() implies !pair_named(#[trigger] f[k], name) by {
            assert(f[k] == ls[k]);
        }
        lemma_last_value_at(f, name, i);
    }
}

/// A `name=value` line whose name no later line repeats: the attributes hold
/// its unquoted value under that name exactly when the name is a recognised
/// one; under any other name they hold nothing.
pub proof fn law_recognised_pair_kept(text: Seq<char>, m: AttributeMap, i: int)
    requires
        dump_holds(m, text),
        0 <= i < lines_of(text).len(),
        line_pair(lines_of(text)[i]) is Some,
        forall|k: int|
            i < k < lines_of(text).len() ==> !pair_named(
                #[trigger] lines_of(text)[k],
                line_pair(lines_of(text)[i])->Some_0.0,
            ),
    ensures
        ({
            let pr = line_pair(lines_of(text)[i])->Some_0;
            (exists|a: Attr| #[trigger] a.spec_name() == pr.0 && m.spec_get(a) == Some(pr.1)) <==> (
            exists|a: Attr| #[trigger] a.spec_name() == pr.0)
        }),
{
    let ls = lines_of(text);
    let pr = line_pair(ls[i])->Some_0;
    lemma_last_value_at(ls, pr.0, i);
    if exists|a: Attr| #[trigger] a.spec_name() == pr.0 {
        let a = choose|a: Attr| #[trigger] a.spec_name() == pr.0;
        assert(m.spec_get(a) == last_value(ls, a.spec_name()));
    }
}

/// No `=` at or after `i`: the search runs to the end.
proof fn lemma_find_eq_none(line: Seq<char>, i: int)
    requires
        0 <= i <= line.len(),
        forall|k: int| i <= k < line.len() ==> line[k] != '=',
    ensures
        find_eq(line, i) == line.len(),
    decreases line.len() - i,
{
    if i < line.len() {
        lemma_find_eq_none(line, i + 1);
    }
}

/// The first `=` at or after `i` is found.
proof fn lemma_find_eq_first(line: Seq<char>, i: int, p: int)
    requires
        0 <= i <= p < line.len(),
        line[p] == '=',
        forall|k: int| i <= k < p ==> line[k] != '=',
    ensures
        find_eq(line, i) == p,
    decreases p - i,
{
    if i < p {
        lemma_find_eq_first(line, i + 1, p);
    }
}

/// A line without `=`, or with nothing after its first `=`, gives no pair.
pub proof fn law_line_without_value(line: Seq<char>)
    requires
        (forall|k: int| 0 <= k < line.len() ==> line[k] != '=') || (line.len() > 0 && line.last()
            == '=' && forall|k: int| 0 <= k < line.len() - 1 ==> line[k] != '='),
    ensures
        line_pair(line) is None,
{
    if forall|k: int| 0 <= k < line.len() ==> line[k] != '=' {
        lemma_find_eq_none(line, 0);
    } else {
        lemma_find_eq_first(line, 0, line.len() - 1);
    }
}

/// A line that gives no pair has no effect: leaving it out changes neither
/// any value nor whether the dump holds a pair at all.
pub proof fn law_unpaired_line_ignored(ls: Seq<Seq<char>>, i: int, name: Seq<char>)
    requires
        0 <= i < ls.len(),
        line_pair(ls[i]) is None,
    ensures
        last_value(ls.remove(i), name) == last_value(ls, name),
        has_pair(ls.remove(i)) == has_pair(ls),
    decreases ls.len(),
{
    if i == ls.len() - 1 {
        assert(ls.remove(i) =~= ls.drop_last());
    } else {
        let f = ls.drop_last();
        law_unpaired_line_ignored(f, i, name);
        assert(ls.remove(i).drop_last() =~= f.remove(i));
        assert(ls.remove(i).last() == ls.last());
    }
}

/// A value enclosed in single quotes loses exactly those two quotes.
pub proof fn law_quotes_stripped(inner: Seq<char>)
    ensures
        unquote(seq!['\''] + inner + seq!['\'']) == inner,
{
    let v = seq!['\''] + inner + seq!['\''];
    assert(v.subrange(1, v.len() - 1) =~= inner);
}

/// A value that does not both start and end with a single quote is kept as
/// it is.
pub proof fn law_unenclosed_value_kept(v: Seq<char>)
    requires
        v.len() == 0 || v[0] != '\'' || v.last() != '\'',
    ensures
        unquote(v) == v,
{
}

} // verus!
