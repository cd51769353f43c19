use vstd::prelude::*;

use crate::attrs::{attr_at, Attr, AttributeMap, ATTR_COUNT};
use crate::dump::{lines_of, split_state, strip_cr};
use crate::text::{chars_of, decode_text, string_from_chars};
use vstd::utf8::{decode_utf8, valid_utf8};

verus! {

/// What every profile header starts with.
pub open spec fn header_prefix() -> Seq<char> {
    "profile "@
}

/// Whether a line opens a profile block.
pub open spec fn is_header(line: Seq<char>) -> bool {
    line.len() >= header_prefix().len() && line.take(header_prefix().len() as int)
        == header_prefix()
}

/// The profile name that a header line gives.
pub open spec fn header_name(line: Seq<char>) -> Seq<char> {
    line.skip(header_prefix().len() as int)
}

/// The header line of profile `name`.
pub open spec fn header_line(name: Seq<char>) -> Seq<char> {
    header_prefix() + name
}

/// Whether line `i` of `d` lies in the block of profile `name`: the nearest
/// header at or above it is that profile's.
pub open spec fn in_block(d: Seq<Seq<char>>, name: Seq<char>, i: int) -> bool
    decreases i + 1,
{
    if i < 0 || i >= d.len() {
        false
    } else if is_header(d[i]) {
        header_name(d[i]) == name
    } else {
        in_block(d, name, i - 1)
    }
}

/// The lines of `d` outside the block of profile `name`, in order.
pub open spec fn removed(d: Seq<Seq<char>>, name: Seq<char>) -> Seq<Seq<char>>
    decreases d.len(),
{
    if d.len() == 0 {
        Seq::empty()
    } else {
        let r = removed(d.drop_last(), name);
        if in_block(d, name, d.len() - 1) {
            r
        } else {
            r.push(d.last())
        }
    }
}

/// The line that records attribute `a` with value `v`.
pub open spec fn static_line(a: Attr, v: Seq<char>) -> Seq<char> {
    "static "@ + a.spec_name() + "="@ + v
}

/// The lines recording the values that `m` holds for the first `k` attributes.
pub open spec fn static_lines(m: AttributeMap, k: int) -> Seq<Seq<char>>
    decreases k,
{
    if k <= 0 {
        Seq::empty()
    } else {
        let prev = static_lines(m, k - 1);
        match m.spec_get(attr_at(k - 1)) {
            Some(v) => prev.push(static_line(attr_at(k - 1), v)),
            None => prev,
        }
    }
}

/// The block appended for profile `name`: a blank line, the header, and one
/// line per value of `m`.
pub open spec fn new_block(name: Seq<char>, m: AttributeMap) -> Seq<Seq<char>> {
    seq![Seq::empty(), header_line(name)] + static_lines(m, ATTR_COUNT as int)
}

/// The document after the block of `name` is replaced by the values of `m`.
pub open spec fn edited(d: Seq<Seq<char>>, name: Seq<char>, m: AttributeMap) -> Seq<Seq<char>> {
    removed(d, name) + new_block(name, m)
}

/// The characters of each line.
pub open spec fn lines_view(v: Seq<String>) -> Seq<Seq<char>> {
    v.map_values(|l: String| l@)
}

fn strip_cr_string(l: &[char]) -> (r: String)
    ensures
        r@ == strip_cr(l@),
{
    let n = l.len();
    let mut cs: Vec<char> = Vec::new();
    let mut i: usize = 0;
    let end: usize = if n > 0 && l[n - 1] == '\r' {
        n - 1
    } else {
        n
    };
    while i < end
        invariant
            end <= n == l@.len(),
            i <= end,
            cs@ == l@.take(i as int),
        decreases end - i,
    {
        cs.push(l[i]);
        i = i + 1;
        assert(cs@ =~= l@.take(i as int));
    }
    assert(l@.take(n as int) =~= l@);
    string_from_chars(&cs)
}

/// The lines of a text: split at `\n` or `\r\n`, the last terminator optional.
pub fn text_lines(text: &str) -> (r: Vec<String>)
    ensures
        lines_view(r@) == lines_of(text@),
{
    let cs = chars_of(text);
    let mut out: Vec<String> = Vec::new();
    let mut cur: Vec<char> = Vec::new();
    let mut i: usize = 0;
    assert(cs@.take(0) =~= Seq::<char>::empty());
    assert(lines_view(out@) =~= Seq::<Seq<char>>::empty());
    while i < cs.len()
        invariant
            i <= cs@.len(),
            cs@ == text@,
            split_state(cs@.take(i as int)) == (lines_view(out@), cur@),
        decreases cs.len() - i,
    {
        let c = cs[i];
        assert(cs@.take(i + 1).drop_last() =~= cs@.take(i as int));
        if c == '\n' {
            let ghost before = out@;
            out.push(strip_cr_string(&cur));
            assert(lines_view(out@) =~= lines_view(before).push(strip_cr(cur@)));
            cur = Vec::new();
        } else {
            cur.push(c);
        }
        i = i + 1;
    }
    assert(cs@.take(cs@.len() as int) =~= cs@);
    if cur.len() > 0 {
        let ghost before = out@;
        out.push(string_from_chars(&cur));
        assert(lines_view(out@) =~= lines_view(before).push(cur@));
    }
    out
}

/// The lines of a document stored as `bytes`; none when they are not
/// well-formed UTF-8.
pub fn document_lines(bytes: &[u8]) -> (r: Option<Vec<String>>)
    ensures
        r is None <==> !valid_utf8(bytes@),
        r matches Some(ls) ==> lines_view(ls@) == lines_of(decode_utf8(bytes@)),
{
    match decode_text(bytes) {
        Some(t) => Some(text_lines(t.as_str())),
        None => None,
    }
}

/// Whether line `i` lies in the block is decided by the lines up to `i`.
pub proof fn lemma_in_block_prefix(d: Seq<Seq<char>>, e: Seq<Seq<char>>, name: Seq<char>, i: int)
    requires
        0 <= i < d.len() <= e.len(),
        d == e.take(d.len() as int),
    ensures
        in_block(d, name, i) == in_block(e, name, i),
    decreases i + 1,
{
    assert(d[i] == e[i]);
    if i > 0 {
        lemma_in_block_prefix(d, e, name, i - 1);
    }
    assert(in_block(d, name, i) == if is_header(d[i]) {
        header_name(d[i]) == name
    } else {
        in_block(d, name, i - 1)
    });
    assert(in_block(e, name, i) == if is_header(e[i]) {
        header_name(e[i]) == name
    } else {
        in_block(e, name, i - 1)
    });
}

fn append_chars(dst: &mut Vec<char>, src: &[char])
    ensures
        final(dst)@ == old(dst)@ + src@,
{
    let ghost start = dst@;
    let mut i: usize = 0;
    while i < src.len()
        invariant
            i <= src@.len(),
            dst@ == start + src@.take(i as int),
        decreases src.len() - i,
    {
        dst.push(src[i]);
        i = i + 1;
        assert(dst@ =~= start + src@.take(i as int));
    }
    assert(src@.take(src@.len() as int) =~= src@);
}

/// Whether `line` is a header, and if so whether it names `name`.
fn header_match(line: &[char], prefix: &[char], name: &[char]) -> (r: (bool, bool))
    requires
        prefix@ == header_prefix(),
    ensures
        r.0 == is_header(line@),
        r.0 ==> r.1 == (header_name(line@) == name@),
{
    let n = prefix.len();
    if line.len() < n {
        return (false, false);
    }
    let mut i: usize = 0;
    while i < n
        invariant
            prefix@ == header_prefix(),
            n == prefix@.len() <= line@.len(),
            i <= n,
            forall|k: int| 0 <= k < i ==> line@[k] == prefix@[k],
        decreases n - i,
    {
        if line[i] != prefix[i] {
            assert(line@.take(n as int)[i as int] != prefix@[i as int]);
            assert(line@.take(n as int) != prefix@);
            return (false, false);
        }
        i = i + 1;
    }
    assert(line@.take(n as int) =~= prefix@);
    if line.len() - n != name.len() {
        assert(header_name(line@).len() != name@.len());
        return (true, false);
    }
    let mut j: usize = 0;
    while j < name.len()
        invariant
            prefix@ == header_prefix(),
            n == prefix@.len(),
            line@.len() == n + name@.len(),
            n + name@.len() <= usize::MAX,
            line@.take(n as int) == prefix@,
            is_header(line@),
            j <= name@.len(),
            forall|k: int| 0 <= k < j ==> line@[n + k] == name@[k],
        decreases name.len() - j,
    {
        if line[n + j] != name[j] {
            assert(header_name(line@)[j as int] == line@[n + j]);
            assert(header_name(line@) != name@);
            return (true, false);
        }
        j = j + 1;
    }
    assert(header_name(line@) =~= name@);
    (true, true)
}

/// The lines of `doc` outside the block of profile `name`, in order.
fn remove_block(doc: &Vec<String>, name: &[char]) -> (r: Vec<String>)
    ensures
        lines_view(r@) == removed(lines_view(doc@), name@),
{
    let ghost d = lines_view(doc@);
    let prefix = chars_of("profile ");
    let mut out: Vec<String> = Vec::new();
    let mut inside = false;
    let mut j: usize = 0;
    assert(d.take(0) =~= Seq::<Seq<char>>::empty());
    assert(lines_view(out@) =~= Seq::<Seq<char>>::empty());
    while j < doc.len()
        invariant
            d == lines_view(doc@),
            prefix@ == header_prefix(),
            j <= doc@.len(),
            inside == in_block(d, name@, j - 1),
            lines_view(out@) == removed(d.take(j as int), name@),
        decreases doc.len() - j,
    {
        let line = chars_of(doc[j].as_str());
        let (hdr, same) = header_match(&line, &prefix, name);
        if hdr {
            inside = same;
        }
        let ghost dj = d.take(j + 1);
        proof {
            assert(dj.drop_last() =~= d.take(j as int));
            assert(dj.last() == d[j as int]);
            lemma_in_block_prefix(dj, d, name@, j as int);
        }
        if !inside {
            let ghost before = out@;
            out.push(doc[j].clone());
            assert(lines_view(out@) =~= lines_view(before).push(d[j as int]));
        }
        j = j + 1;
    }
    assert(d.take(doc.len() as int) =~= d);
    out
}

/// The line that records attribute `a` with value `v`.
fn make_static_line(a: Attr, v: &str) -> (r: String)
    ensures
        r@ == static_line(a, v@),
{
    let mut cs = chars_of("static ");
    append_chars(&mut cs, &chars_of(a.name()));
    append_chars(&mut cs, &chars_of("="));
    append_chars(&mut cs, &chars_of(v));
    string_from_chars(&cs)
}

/// Replaces the block of profile `name` in `doc`: the old block is dropped
/// and a blank line, the header `profile <name>` and one `static key=value`
/// line per value of `attrs` are appended at the end.
pub fn replace_profile(doc: &Vec<String>, name: &str, attrs: &AttributeMap) -> (r: Vec<String>)
    ensures
        lines_view(r@) == edited(lines_view(doc@), name@, *attrs),
{
    let name_chars = chars_of(name);
    let mut out = remove_block(doc, &name_chars);
    let ghost base = lines_view(out@);
    out.push(String::new());
    let mut header = chars_of("profile ");
    append_chars(&mut header, &name_chars);
    out.push(string_from_chars(&header));
    assert(lines_view(out@) =~= base + seq![Seq::<char>::empty(), header_line(name@)]);
    let mut i: usize = 0;
    while i < ATTR_COUNT
        invariant
            i <= ATTR_COUNT,
            lines_view(out@) == base + seq![Seq::<char>::empty(), header_line(name@)]
                + static_lines(*attrs, i as int),
        decreases ATTR_COUNT - i,
    {
        let a = Attr::from_index(i);
        match attrs.get(a) {
            Some(v) => {
                let ghost before = out@;
                let line = make_static_line(a, v.as_str());
                out.push(line);
                assert(lines_view(out@) =~= lines_view(before).push(static_line(a, v@)));
            },
            None => {},
        }
        i = i + 1;
    }
    assert(lines_view(out@) =~= edited(lines_view(doc@), name@, *attrs));
    out
}

/// Position, in the edited document, of the kept lines before line `i`.
pub open spec fn kept_pos(d: Seq<Seq<char>>, name: Seq<char>, i: int) -> int {
    removed(d.take(i), name).len() as int
}

/// One more line of the scan: the line is dropped exactly when it lies in the
/// block.
proof fn lemma_removed_step(d: Seq<Seq<char>>, name: Seq<char>, j: int)
    requires
        0 <= j < d.len(),
    ensures
        removed(d.take(j + 1), name) == if in_block(d, name, j) {
            removed(d.take(j), name)
        } else {
            removed(d.take(j), name).push(d[j])
        },
{
    let dj = d.take(j + 1);
    assert(dj.drop_last() =~= d.take(j));
    assert(dj.last() == d[j]);
    lemma_in_block_prefix(dj, d, name, j);
}

/// What is kept of a shorter part of the document starts what is kept of a
/// longer one.
proof fn lemma_removed_grows(d: Seq<Seq<char>>, name: Seq<char>, i: int, k: int)
    requires
        0 <= i <= k <= d.len(),
    ensures
        removed(d.take(i), name).len() <= removed(d.take(k), name).len(),
        removed(d.take(k), name).take(removed(d.take(i), name).len() as int) == removed(
            d.take(i),
            name,
        ),
    decreases k - i,
{
    if k > i {
        lemma_removed_grows(d, name, i, k - 1);
        lemma_removed_step(d, name, k - 1);
        let a = removed(d.take(i), name);
        let b = removed(d.take(k - 1), name);
        assert(removed(d.take(k), name).take(a.len() as int) =~= b.take(a.len() as int));
    } else {
        let a = removed(d.take(i), name);
        assert(a.take(a.len() as int) =~= a);
    }
}

/// A line outside the block of `name` stays in the edited document, at the
/// position that the kept lines before it give.
pub proof fn law_outside_line_kept(d: Seq<Seq<char>>, name: Seq<char>, m: AttributeMap, i: int)
    requires
        0 <= i < d.len(),
        !in_block(d, name, i),
    ensures
        kept_pos(d, name, i) < removed(d, name).len(),
        edited(d, name, m)[kept_pos(d, name, i)] == d[i],
{
    lemma_removed_step(d, name, i);
    lemma_removed_grows(d, name, i + 1, d.len() as int);
    assert(d.take(d.len() as int) =~= d);
    let r = removed(d, name);
    let p = kept_pos(d, name, i);
    assert(r.take(p + 1)[p] == d[i]);
}

/// Lines outside the block of `name` keep their relative order.
pub proof fn law_outside_lines_keep_order(d: Seq<Seq<char>>, name: Seq<char>, i: int, j: int)
    requires
        0 <= i < j < d.len(),
        !in_block(d, name, i),
        !in_block(d, name, j),
    ensures
        kept_pos(d, name, i) < kept_pos(d, name, j),
{
    lemma_removed_step(d, name, i);
    lemma_removed_grows(d, name, i + 1, j);
}

/// The lines of another profile's block lie outside the block of `name`.
pub proof fn law_other_block_outside(d: Seq<Seq<char>>, name: Seq<char>, j: int, i: int)
    requires
        0 <= j <= i < d.len(),
        is_header(d[j]),
        header_name(d[j]) != name,
        forall|k: int| j < k <= i ==> !is_header(#[trigger] d[k]),
    ensures
        !in_block(d, name, i),
    decreases i - j,
{
    if i > j {
        law_other_block_outside(d, name, j, i - 1);
    }
}

/// The lines above the first header lie outside every block.
pub proof fn law_lines_before_headers_outside(d: Seq<Seq<char>>, name: Seq<char>, i: int)
    requires
        0 <= i < d.len(),
        forall|k: int| 0 <= k <= i ==> !is_header(#[trigger] d[k]),
    ensures
        !in_block(d, name, i),
    decreases i,
{
    assert(!is_header(d[i]));
    if i > 0 {
        law_lines_before_headers_outside(d, name, i - 1);
    } else {
        assert(!in_block(d, name, -1));
    }
}

/// Whether line `l` is the header of profile `name`.
pub open spec fn is_target_header(l: Seq<char>, name: Seq<char>) -> bool {
    is_header(l) && header_name(l) == name
}

/// What is kept of a document holds no header of `name`.
proof fn lemma_removed_no_target(d: Seq<Seq<char>>, name: Seq<char>)
    ensures
        forall|k: int|
            0 <= k < removed(d, name).len() ==> !is_target_header(
                #[trigger] removed(d, name)[k],
                name,
            ),
    decreases d.len(),
{
    if d.len() > 0 {
        let f = d.drop_last();
        let n = d.len() - 1;
        lemma_removed_no_target(f, name);
        if !in_block(d, name, n) {
            assert(!is_target_header(d[n], name));
            let rf = removed(f, name);
            assert forall|k: int|
                0 <= k < removed(d, name).len() implies !is_target_header(
                #[trigger] removed(d, name)[k],
                name,
            ) by {
                if k < rf.len() {
                    assert(removed(d, name)[k] == rf[k]);
                }
            }
        }
    }
}

/// Without a header of `name` above it, a line lies outside that block.
proof fn lemma_no_target_outside(e: Seq<Seq<char>>, name: Seq<char>, i: int)
    requires
        i < e.len(),
        forall|k: int| 0 <= k <= i ==> !is_target_header(#[trigger] e[k], name),
    ensures
        !in_block(e, name, i),
    decreases i + 1,
{
    if i >= 0 {
        assert(!is_target_header(e[i], name));
        lemma_no_target_outside(e, name, i - 1);
    }
}

/// A document with no line in the block of `name` is kept whole.
proof fn lemma_removed_all(e: Seq<Seq<char>>, name: Seq<char>)
    requires
        forall|k: int| 0 <= k < e.len() ==> !in_block(e, name, k),
    ensures
        removed(e, name) == e,
    decreases e.len(),
{
    if e.len() > 0 {
        let f = e.drop_last();
        assert forall|k: int| 0 <= k < f.len() implies !in_block(f, name, k) by {
            assert(f =~= e.take(f.len() as int));
            lemma_in_block_prefix(f, e, name, k);
        }
        lemma_removed_all(f, name);
        assert(!in_block(e, name, e.len() - 1));
        assert(f.push(e.last()) =~= e);
    }
}

/// No line that records a value is a header.
proof fn lemma_static_not_header(m: AttributeMap, k: int)
    ensures
        forall|i: int|
            0 <= i < static_lines(m, k).len() ==> !is_header(#[trigger] static_lines(m, k)[i]),
    decreases k,
{
    reveal_strlit("static ");
    reveal_strlit("profile ");
    if k > 0 {
        lemma_static_not_header(m, k - 1);
        match m.spec_get(attr_at(k - 1)) {
            Some(v) => {
                let l = static_line(attr_at(k - 1), v);
                assert(l[0] == 's');
                assert(header_prefix()[0] == 'p');
                if is_header(l) {
                    assert(l.take(header_prefix().len() as int)[0] == l[0]);
                }
                let prev = static_lines(m, k - 1);
                assert forall|i: int|
                    0 <= i < static_lines(m, k).len() implies !is_header(
                    #[trigger] static_lines(m, k)[i],
                ) by {
                    if i < prev.len() {
                        assert(static_lines(m, k)[i] == prev[i]);
                    }
                }
            },
            None => {},
        }
    }
}

/// Past the new header, every appended line lies in its block and is dropped.
proof fn lemma_tail_dropped(e: Seq<Seq<char>>, name: Seq<char>, start: int, j: int)
    requires
        0 <= start,
        start + 2 <= j <= e.len(),
        is_target_header(e[start + 1], name),
        removed(e.take(start + 2), name) == removed(e.take(start + 1), name),
        forall|k: int| start + 2 <= k < e.len() ==> !is_header(#[trigger] e[k]),
    ensures
        in_block(e, name, j - 1),
        removed(e.take(j), name) == removed(e.take(start + 1), name),
    decreases j,
{
    if j > start + 2 {
        lemma_tail_dropped(e, name, start, j - 1);
        assert(!is_header(e[j - 1]));
        lemma_removed_step(e, name, j - 1);
    }
}

/// Editing the same profile twice: the second edit drops the block that the
/// first appended and appends it again, and keeps the blank line that the first
/// placed before it. So the two results differ by that one blank line.
pub proof fn law_edit_twice(d: Seq<Seq<char>>, name: Seq<char>, m: AttributeMap)
    ensures
        edited(d, name, m) == removed(d, name) + new_block(name, m),
        edited(edited(d, name, m), name, m) == removed(d, name) + seq![Seq::<char>::empty()]
            + new_block(name, m),
{
    reveal_strlit("profile ");
    let r = removed(d, name);
    let b = new_block(name, m);
    let e = r + b;
    let l = r.len() as int;
    lemma_removed_no_target(d, name);
    assert forall|k: int| 0 <= k < r.len() implies !in_block(r, name, k) by {
        lemma_no_target_outside(r, name, k);
    }
    lemma_removed_all(r, name);
    assert(e.take(l) =~= r);
    // the blank line stays
    assert(e[l] == Seq::<char>::empty());
    assert(!is_header(e[l]));
    if l > 0 {
        assert(!in_block(r, name, l - 1));
        lemma_in_block_prefix(r, e, name, l - 1);
        assert(!in_block(e, name, l - 1));
    }
    assert(b.len() >= 2);
    assert(e.len() == l + b.len());
    assert(in_block(e, name, l) == in_block(e, name, l - 1));
    assert(!in_block(e, name, l));
    lemma_removed_step(e, name, l);
    // the header goes
    assert(e[l + 1] == header_line(name));
    assert(header_line(name).take(header_prefix().len() as int) =~= header_prefix());
    assert(header_name(header_line(name)) =~= name);
    lemma_removed_step(e, name, l + 1);
    // and so does every recorded value
    lemma_static_not_header(m, ATTR_COUNT as int);
    assert forall|k: int| l + 2 <= k < e.len() implies !is_header(#[trigger] e[k]) by {
        assert(e[k] == static_lines(m, ATTR_COUNT as int)[k - l - 2]);
    }
    lemma_tail_dropped(e, name, l, e.len() as int);
    assert(e.take(e.len() as int) =~= e);
    assert(removed(e, name) == r.push(Seq::<char>::empty()));
    assert(r.push(Seq::<char>::empty()) + b =~= r + seq![Seq::<char>::empty()] + b);
}

/// After an edit the document holds the header of `name` exactly once: right
/// after the blank line that ends the kept lines.
pub proof fn law_single_header(d: Seq<Seq<char>>, name: Seq<char>, m: AttributeMap, k: int)
    requires
        0 <= k < edited(d, name, m).len(),
    ensures
        edited(d, name, m)[k] == header_line(name) <==> k == removed(d, name).len() + 1,
{
    reveal_strlit("profile ");
    let r = removed(d, name);
    let e = edited(d, name, m);
    let l = r.len() as int;
    let h = header_line(name);
    assert(h.take(header_prefix().len() as int) =~= header_prefix());
    assert(header_name(h) =~= name);
    assert(is_target_header(h, name));
    if k < l {
        lemma_removed_no_target(d, name);
        assert(e[k] == r[k]);
    } else if k == l {
        assert(e[k] == Seq::<char>::empty());
        assert(e[k].len() != h.len());
    } else if k > l + 1 {
        lemma_static_not_header(m, ATTR_COUNT as int);
        assert(e[k] == static_lines(m, ATTR_COUNT as int)[k - l - 2]);
    }
}

} // verus!
