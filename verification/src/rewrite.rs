//! The tag-driven line rewriter.
//!
//! A config file carries one line tagged `#[dark]` and one tagged `#[light]`
//! (the tag is a suffix of the line once surrounding whitespace is trimmed).
//! Rewriting for a preference uncomments the line whose tag the preference
//! activates and comments out the other, leaving every other line unchanged.
//! A line is commented when its first non-whitespace byte is `#`;
//! uncommenting strips that byte and at most one following space, commenting
//! prepends `"# "`. Each tag must be found exactly once or the rewrite fails.

use vstd::prelude::*;

use crate::preference::SchemePreference;

verus! {

/// ASCII whitespace, the bytes trimmed before a line is matched.
pub open spec fn is_ws(b: u8) -> bool {
    b == 32 || (9 <= b && b <= 13)
}

/// `s` without its leading whitespace.
pub open spec fn trim_left(s: Seq<u8>) -> Seq<u8>
    decreases s.len(),
{
    if s.len() > 0 && is_ws(s[0]) {
        trim_left(s.drop_first())
    } else {
        s
    }
}

/// `s` without its trailing whitespace.
pub open spec fn trim_right(s: Seq<u8>) -> Seq<u8>
    decreases s.len(),
{
    if s.len() > 0 && is_ws(s.last()) {
        trim_right(s.drop_last())
    } else {
        s
    }
}

/// `s` without leading and trailing whitespace.
pub open spec fn trim_spec(s: Seq<u8>) -> Seq<u8> {
    trim_right(trim_left(s))
}

/// `suffix` stands at the end of `s`.
pub open spec fn ends_with(s: Seq<u8>, suffix: Seq<u8>) -> bool {
    suffix.len() <= s.len() && s.skip(s.len() - suffix.len()) == suffix
}

/// The line carries `tag` as the suffix of its trimmed form.
pub open spec fn line_matches(l: Seq<u8>, tag: Seq<u8>) -> bool {
    ends_with(trim_spec(l), tag)
}

/// The line reads as a comment: its first non-whitespace byte is `#`.
pub open spec fn is_commented(l: Seq<u8>) -> bool {
    trim_spec(l).len() > 0 && trim_spec(l)[0] == 35
}

/// The number of leading whitespace bytes of `l`.
pub open spec fn indent_len(l: Seq<u8>) -> int {
    l.len() - trim_left(l).len()
}

/// One byte past the last non-whitespace byte of `l`.
pub open spec fn content_end(l: Seq<u8>) -> int {
    indent_len(l) + trim_spec(l).len()
}

/// `s` without one leading space, if it has one.
pub open spec fn strip_one_space(s: Seq<u8>) -> Seq<u8> {
    if s.len() > 0 && s[0] == 32 {
        s.drop_first()
    } else {
        s
    }
}

/// The line with its comment state cleared: a commented line loses its `#`
/// and at most one space that follows it, keeping its indentation; a line
/// that is not commented is left unchanged.
pub open spec fn uncomment_spec(l: Seq<u8>) -> Seq<u8> {
    if is_commented(l) {
        l.take(indent_len(l)) + strip_one_space(l.skip(indent_len(l) + 1))
    } else {
        l
    }
}

/// The line commented out: `"# "` is prepended unless the line already
/// reads as a comment, in which case it is left unchanged.
pub open spec fn comment_spec(l: Seq<u8>) -> Seq<u8> {
    if is_commented(l) {
        l
    } else {
        seq![35u8, 32u8] + l
    }
}

/// Trimming from the left keeps a whitespace-only prefix out and nothing
/// else: the remainder starts at `indent_len` with a non-whitespace byte.
pub proof fn lemma_trim_left_shape(l: Seq<u8>)
    ensures
        0 <= indent_len(l) <= l.len(),
        trim_left(l) == l.skip(indent_len(l)),
        forall|j: int| 0 <= j < indent_len(l) ==> is_ws(#[trigger] l[j]),
        indent_len(l) < l.len() ==> !is_ws(l[indent_len(l)]),
    decreases l.len(),
{
    if l.len() > 0 && is_ws(l[0]) {
        lemma_trim_left_shape(l.drop_first());
        assert(l.drop_first() =~= l.skip(1));
        let h1 = indent_len(l.skip(1));
        assert(l.skip(1).skip(h1) =~= l.skip(1 + h1));
        assert(indent_len(l) == 1 + h1);
        assert forall|j: int| 0 <= j < indent_len(l) implies is_ws(#[trigger] l[j]) by {
            if j > 0 {
                assert(l[j] == l.skip(1)[j - 1]);
            }
        }
        if indent_len(l) < l.len() {
            assert(l[indent_len(l)] == l.skip(1)[h1]);
        }
    } else {
        assert(l.skip(0) =~= l);
    }
}

/// Trimming from the right keeps a whitespace-only suffix out and nothing
/// else: the remainder is the prefix up to `trim_right(s).len()`, which ends
/// with a non-whitespace byte.
pub proof fn lemma_trim_right_shape(s: Seq<u8>)
    ensures
        0 <= trim_right(s).len() <= s.len(),
        trim_right(s) == s.take(trim_right(s).len() as int),
        forall|j: int| trim_right(s).len() <= j < s.len() ==> is_ws(#[trigger] s[j]),
        trim_right(s).len() > 0 ==> !is_ws(s[trim_right(s).len() - 1]),
    decreases s.len(),
{
    if s.len() > 0 && is_ws(s.last()) {
        lemma_trim_right_shape(s.drop_last());
        let d = s.drop_last();
        assert(d =~= s.take(s.len() - 1));
        let e = trim_right(s).len() as int;
        assert(trim_right(s) == trim_right(d));
        assert(d.take(e) =~= s.take(e));
        assert forall|j: int| e <= j < s.len() implies is_ws(#[trigger] s[j]) by {
            if j < s.len() - 1 {
                assert(s[j] == d[j]);
            }
        }
        if e > 0 {
            assert(s[e - 1] == d[e - 1]);
        }
    } else {
        assert(s.take(s.len() as int) =~= s);
    }
}

/// Any prefix of `s` that ends with a non-whitespace byte and is followed
/// only by whitespace is what trimming from the right leaves.
pub proof fn lemma_trim_right_of(s: Seq<u8>, k: int)
    requires
        0 <= k <= s.len(),
        forall|j: int| k <= j < s.len() ==> is_ws(#[trigger] s[j]),
        k > 0 ==> !is_ws(s[k - 1]),
    ensures
        trim_right(s) == s.take(k),
    decreases s.len(),
{
    if s.len() > 0 && is_ws(s.last()) {
        lemma_trim_right_of(s.drop_last(), k);
        assert(s.drop_last().take(k) =~= s.take(k));
    } else {
        assert(s.take(s.len() as int) =~= s);
    }
}

/// The trimmed form of a line is the region between its indentation and its
/// trailing whitespace, with non-whitespace bytes at both ends.
pub proof fn lemma_trim_shape(l: Seq<u8>)
    ensures
        0 <= indent_len(l) <= content_end(l) <= l.len(),
        trim_left(l) == l.skip(indent_len(l)),
        trim_spec(l) == l.subrange(indent_len(l), content_end(l)),
        forall|j: int| 0 <= j < indent_len(l) ==> is_ws(#[trigger] l[j]),
        forall|j: int| content_end(l) <= j < l.len() ==> is_ws(#[trigger] l[j]),
        trim_spec(l).len() > 0 ==> !is_ws(l[indent_len(l)]) && !is_ws(l[content_end(l) - 1]),
        trim_spec(l).len() == 0 ==> indent_len(l) == l.len(),
{
    lemma_trim_left_shape(l);
    let h = indent_len(l);
    let t = trim_left(l);
    lemma_trim_right_shape(t);
    let e = trim_right(t).len() as int;
    assert(t.take(e) =~= l.subrange(h, h + e));
    assert forall|j: int| content_end(l) <= j < l.len() implies is_ws(#[trigger] l[j]) by {
        assert(l[j] == t[j - h]);
    }
    if trim_spec(l).len() > 0 {
        assert(l[h] == t[0]);
        assert(!is_ws(t[0]));
        assert(l[content_end(l) - 1] == t[e - 1]);
    } else {
        if h < l.len() {
            assert(!is_ws(t[0]));
            assert(is_ws(t[0]));
        }
    }
}

/// Whether a byte is ASCII whitespace.
fn byte_is_ws(b: u8) -> (r: bool)
    ensures
        r == is_ws(b),
{
    b == 32 || (9 <= b && b <= 13)
}

/// The number of leading whitespace bytes of `l`.
fn first_non_ws(l: &[u8]) -> (h: usize)
    ensures
        h == indent_len(l@),
        h <= l.len(),
        trim_left(l@) == l@.skip(h as int),
{
    let mut i: usize = 0;
    proof {
        assert(l@.skip(0) =~= l@);
    }
    while i < l.len() && byte_is_ws(l[i])
        invariant
            0 <= i <= l.len(),
            trim_left(l@) == trim_left(l@.skip(i as int)),
        decreases l.len() - i,
    {
        proof {
            assert(l@.skip(i as int)[0] == l@[i as int]);
            assert(l@.skip(i as int).drop_first() =~= l@.skip(i as int + 1));
        }
        i += 1;
    }
    proof {
        if i < l.len() {
            assert(l@.skip(i as int)[0] == l@[i as int]);
        }
        assert(trim_left(l@.skip(i as int)) == l@.skip(i as int));
    }
    i
}

/// One byte past the last non-whitespace byte of `l`.
fn last_non_ws_end(l: &[u8]) -> (e: usize)
    ensures
        e == content_end(l@),
{
    let h = first_non_ws(l);
    let mut e: usize = l.len();
    while e > h && byte_is_ws(l[e - 1])
        invariant
            h <= e <= l.len(),
            h == indent_len(l@),
            trim_left(l@) == l@.skip(h as int),
            forall|j: int| e <= j < l.len() ==> is_ws(#[trigger] l@[j]),
        decreases e,
    {
        e -= 1;
    }
    proof {
        lemma_trim_left_shape(l@);
        let t = trim_left(l@);
        assert forall|j: int| e - h <= j < t.len() implies is_ws(#[trigger] t[j]) by {
            assert(t[j] == l@[j + h]);
        }
        if e > h {
            assert(t[e - h - 1] == l@[e - 1]);
        }
        lemma_trim_right_of(t, e - h);
    }
    e
}

/// The trimmed form of `l` ends with `tag`.
fn matches_tag(l: &[u8], tag: &[u8]) -> (r: bool)
    ensures
        r == line_matches(l@, tag@),
{
    let h = first_non_ws(l);
    let e = last_non_ws_end(l);
    proof {
        lemma_trim_shape(l@);
    }
    if e - h < tag.len() {
        return false;
    }
    let start = e - tag.len();
    let mut k: usize = 0;
    while k < tag.len()
        invariant
            0 <= k <= tag.len(),
            tag.len() <= e - h,
            h == indent_len(l@),
            e == content_end(l@),
            start == e - tag.len(),
            h <= start,
            e <= l.len(),
            forall|j: int| 0 <= j < k ==> l@[start + j] == tag@[j],
        decreases tag.len() - k,
    {
        if l[start + k] != tag[k] {
            proof {
                lemma_trim_shape(l@);
                let t = trim_spec(l@);
                if line_matches(l@, tag@) {
                    assert(t.skip(t.len() - tag@.len()) == tag@);
                    assert(t.skip(t.len() - tag@.len())[k as int] == tag@[k as int]);
                    assert(t[t.len() - tag@.len() + k] == l@[start + k]);
                }
            }
            return false;
        }
        k += 1;
    }
    proof {
        lemma_trim_shape(l@);
        let t = trim_spec(l@);
        assert forall|j: int| 0 <= j < tag@.len() implies t.skip(t.len() - tag@.len())[j]
            == tag@[j] by {
            assert(t[t.len() - tag@.len() + j] == l@[start + j]);
        }
        assert(t.skip(t.len() - tag@.len()) =~= tag@);
    }
    true
}

/// The line reads as a comment.
fn line_is_commented(l: &[u8]) -> (r: bool)
    ensures
        r == is_commented(l@),
{
    let h = first_non_ws(l);
    proof {
        lemma_trim_shape(l@);
        let t = trim_spec(l@);
        if t.len() > 0 {
            assert(t[0] == l@[h as int]);
        }
    }
    h < l.len() && l[h] == 35
}

/// Appends the bytes `l[from..to]` to `out`.
fn push_range(out: &mut Vec<u8>, l: &[u8], from: usize, to: usize)
    requires
        from <= to <= l.len(),
    ensures
        final(out)@ == old(out)@ + l@.subrange(from as int, to as int),
{
    let mut j = from;
    while j < to
        invariant
            from <= j <= to <= l.len(),
            out@ == old(out)@ + l@.subrange(from as int, j as int),
        decreases to - j,
    {
        out.push(l[j]);
        proof {
            assert(old(out)@ + l@.subrange(from as int, j + 1) =~= (old(out)@ + l@.subrange(
                from as int,
                j as int,
            )).push(l@[j as int]));
        }
        j += 1;
    }
}

/// Clears the comment state of the line, as `uncomment_spec` says.
fn uncomment_line(l: &[u8]) -> (out: Vec<u8>)
    ensures
        out@ == uncomment_spec(l@),
{
    let commented = line_is_commented(l);
    let mut out: Vec<u8> = Vec::new();
    if !commented {
        push_range(&mut out, l, 0, l.len());
        proof {
            assert(Seq::<u8>::empty() + l@.subrange(0, l@.len() as int) =~= l@);
        }
        return out;
    }
    let h = first_non_ws(l);
    proof {
        lemma_trim_shape(l@);
    }
    push_range(&mut out, l, 0, h);
    let mut rest = h + 1;
    if rest < l.len() && l[rest] == 32 {
        rest += 1;
        proof {
            assert(strip_one_space(l@.skip(h + 1)) =~= l@.skip(h + 2));
        }
    } else {
        proof {
            if h + 1 < l@.len() {
                assert(l@.skip(h + 1)[0] == l@[h + 1]);
            }
            assert(strip_one_space(l@.skip(h + 1)) =~= l@.skip(h + 1));
        }
    }
    push_range(&mut out, l, rest, l.len());
    proof {
        assert(l@.subrange(0, h as int) =~= l@.take(h as int));
        assert(l@.subrange(rest as int, l@.len() as int) =~= l@.skip(rest as int));
        assert(out@ =~= l@.take(h as int) + strip_one_space(l@.skip(h + 1)));
    }
    out
}

/// Comments the line out, as `comment_spec` says.
fn comment_line(l: &[u8]) -> (out: Vec<u8>)
    ensures
        out@ == comment_spec(l@),
{
    let commented = line_is_commented(l);
    let mut out: Vec<u8> = Vec::new();
    if !commented {
        out.push(35);
        out.push(32);
    }
    push_range(&mut out, l, 0, l.len());
    proof {
        if is_commented(l@) {
            assert(Seq::<u8>::empty() + l@.subrange(0, l@.len() as int) =~= l@);
        } else {
            assert(out@ =~= seq![35u8, 32u8] + l@);
        }
    }
    out
}

/// A plain copy of the line.
fn copy_line(l: &[u8]) -> (out: Vec<u8>)
    ensures
        out@ == l@,
{
    let mut out: Vec<u8> = Vec::new();
    push_range(&mut out, l, 0, l.len());
    proof {
        assert(Seq::<u8>::empty() + l@.subrange(0, l@.len() as int) =~= l@);
    }
    out
}

/// The tag that marks the dark-specific line, `#[dark]`.
pub open spec fn dark_tag_spec() -> Seq<u8> {
    seq![35u8, 91u8, 100u8, 97u8, 114u8, 107u8, 93u8]
}

/// The tag that marks the light-specific line, `#[light]`.
pub open spec fn light_tag_spec() -> Seq<u8> {
    seq![35u8, 91u8, 108u8, 105u8, 103u8, 104u8, 116u8, 93u8]
}

/// The tag of the line that must end up uncommented under `p`.
pub open spec fn activate_tag(p: SchemePreference) -> Seq<u8> {
    if p == SchemePreference::Dark {
        dark_tag_spec()
    } else {
        light_tag_spec()
    }
}

/// The tag of the line that must end up commented under `p`.
pub open spec fn deactivate_tag(p: SchemePreference) -> Seq<u8> {
    if p == SchemePreference::Dark {
        light_tag_spec()
    } else {
        dark_tag_spec()
    }
}

/// The bytes of the dark tag.
fn dark_tag() -> (t: Vec<u8>)
    ensures
        t@ == dark_tag_spec(),
{
    let mut t: Vec<u8> = Vec::new();
    t.push(35);
    t.push(91);
    t.push(100);
    t.push(97);
    t.push(114);
    t.push(107);
    t.push(93);
    proof {
        assert(t@ =~= dark_tag_spec());
    }
    t
}

/// The bytes of the light tag.
fn light_tag() -> (t: Vec<u8>)
    ensures
        t@ == light_tag_spec(),
{
    let mut t: Vec<u8> = Vec::new();
    t.push(35);
    t.push(91);
    t.push(108);
    t.push(105);
    t.push(103);
    t.push(104);
    t.push(116);
    t.push(93);
    proof {
        assert(t@ =~= light_tag_spec());
    }
    t
}

/// The lines of `rest`, with `cur` the partial line read so far: lines break
/// at a newline byte, a line loses one carriage return before its newline,
/// and a last line without a newline is kept as it stands.
pub open spec fn split_rec(rest: Seq<u8>, cur: Seq<u8>) -> Seq<Seq<u8>>
    decreases rest.len(),
{
    if rest.len() == 0 {
        if cur.len() == 0 {
            Seq::empty()
        } else {
            seq![cur]
        }
    } else if rest[0] == 10 {
        seq![strip_one_cr(cur)] + split_rec(rest.drop_first(), Seq::empty())
    } else {
        split_rec(rest.drop_first(), cur.push(rest[0]))
    }
}

/// `s` without one trailing carriage return, if it has one.
pub open spec fn strip_one_cr(s: Seq<u8>) -> Seq<u8> {
    if s.len() > 0 && s.last() == 13 {
        s.drop_last()
    } else {
        s
    }
}

/// The lines of a whole file.
pub open spec fn split_lines_spec(content: Seq<u8>) -> Seq<Seq<u8>> {
    split_rec(content, Seq::empty())
}

/// The lines joined back into a file, a newline after every line.
pub open spec fn join_rec(lines: Seq<Seq<u8>>) -> Seq<u8>
    decreases lines.len(),
{
    if lines.len() == 0 {
        Seq::empty()
    } else {
        lines[0] + seq![10u8] + join_rec(lines.drop_first())
    }
}

/// Splits a file into its lines.
fn split_lines(content: &[u8]) -> (lines: Vec<Vec<u8>>)
    ensures
        lines.deep_view() == split_lines_spec(content@),
{
    let mut lines: Vec<Vec<u8>> = Vec::new();
    let mut cur: Vec<u8> = Vec::new();
    let mut i: usize = 0;
    proof {
        assert(content@.skip(0) =~= content@);
        assert(lines.deep_view() =~= Seq::<Seq<u8>>::empty());
    }
    while i < content.len()
        invariant
            0 <= i <= content.len(),
            split_lines_spec(content@) == lines.deep_view() + split_rec(
                content@.skip(i as int),
                cur@,
            ),
        decreases content.len() - i,
    {
        let ghost prev_lines = lines.deep_view();
        let ghost prev_cur = cur@;
        proof {
            assert(content@.skip(i as int)[0] == content@[i as int]);
            assert(content@.skip(i as int).drop_first() =~= content@.skip(i as int + 1));
        }
        let b = content[i];
        if b == 10 {
            if cur.len() > 0 && cur[cur.len() - 1] == 13 {
                cur.pop();
            }
            proof {
                assert(cur@ =~= strip_one_cr(prev_cur));
            }
            lines.push(cur);
            cur = Vec::new();
            proof {
                assert(lines.deep_view() =~~= prev_lines.push(strip_one_cr(prev_cur)));
                assert(lines.deep_view() + split_rec(content@.skip(i as int + 1), cur@)
                    =~= prev_lines + split_rec(content@.skip(i as int), prev_cur));
            }
        } else {
            cur.push(b);
        }
        i += 1;
    }
    if cur.len() > 0 {
        let ghost prev_lines = lines.deep_view();
        let ghost prev_cur = cur@;
        lines.push(cur);
        proof {
            assert(lines.deep_view() =~~= prev_lines.push(prev_cur));
            assert(content@.skip(content@.len() as int) =~= Seq::<u8>::empty());
            assert(lines.deep_view() =~= prev_lines + split_rec(Seq::empty(), prev_cur));
        }
    } else {
        proof {
            assert(content@.skip(content@.len() as int) =~= Seq::<u8>::empty());
            assert(lines.deep_view() + split_rec(Seq::empty(), cur@) =~= lines.deep_view());
        }
    }
    lines
}

/// Why a rewrite failed.
#[derive(Debug)]
pub enum RewriteError {
    /// The target file is missing.
    NotFound,
    /// The named tag was not found on any line of the file.
    TagNotFound { tag: Vec<u8> },
    /// An underlying input/output failure.
    Io,
}

/// One pass over the lines: the first line that carries the activate tag
/// `nt` while it is still pending is uncommented, the first line that
/// carries the deactivate tag `ot` while it is still pending is commented
/// out, and every other line is kept as it stands. Returns the rewritten
/// lines and the two pending flags as they stand after the pass.
pub open spec fn adjust_rec(
    lines: Seq<Seq<u8>>,
    new_pending: bool,
    old_pending: bool,
    nt: Seq<u8>,
    ot: Seq<u8>,
) -> (Seq<Seq<u8>>, bool, bool)
    decreases lines.len(),
{
    if lines.len() == 0 {
        (Seq::empty(), new_pending, old_pending)
    } else {
        let l = lines[0];
        let first = if new_pending && line_matches(l, nt) {
            (uncomment_spec(l), false, old_pending)
        } else if old_pending && line_matches(l, ot) {
            (comment_spec(l), new_pending, false)
        } else {
            (l, new_pending, old_pending)
        };
        let rest = adjust_rec(lines.drop_first(), first.1, first.2, nt, ot);
        (seq![first.0] + rest.0, rest.1, rest.2)
    }
}

/// The lines rewritten for preference `p`.
pub open spec fn adjusted_lines(lines: Seq<Seq<u8>>, p: SchemePreference) -> Seq<Seq<u8>> {
    adjust_rec(lines, true, true, activate_tag(p), deactivate_tag(p)).0
}

/// Both tags were found when the lines were rewritten for `p`.
pub open spec fn tags_found(lines: Seq<Seq<u8>>, p: SchemePreference) -> bool {
    let r = adjust_rec(lines, true, true, activate_tag(p), deactivate_tag(p));
    !r.1 && !r.2
}

/// The rewrite of a whole file for `p` succeeds: both tags are found.
pub open spec fn adjust_succeeds(content: Seq<u8>, p: SchemePreference) -> bool {
    tags_found(split_lines_spec(content), p)
}

/// The rewritten file: its lines adjusted for `p`, a newline after each.
pub open spec fn adjusted_content(content: Seq<u8>, p: SchemePreference) -> Seq<u8> {
    join_rec(adjusted_lines(split_lines_spec(content), p))
}

/// The tag a failed rewrite reports: the deactivate tag where it is
/// missing, else the activate tag.
pub open spec fn missing_tag_spec(content: Seq<u8>, p: SchemePreference) -> Seq<u8> {
    let r = adjust_rec(
        split_lines_spec(content),
        true,
        true,
        activate_tag(p),
        deactivate_tag(p),
    );
    if r.2 {
        deactivate_tag(p)
    } else {
        activate_tag(p)
    }
}

/// Joins lines back into a file, a newline after every line.
fn join_lines(lines: &Vec<Vec<u8>>) -> (out: Vec<u8>)
    ensures
        out@ == join_rec(lines.deep_view()),
{
    let mut out: Vec<u8> = Vec::new();
    let mut i: usize = 0;
    proof {
        assert(lines.deep_view().skip(0) =~= lines.deep_view());
        assert(Seq::<u8>::empty() + join_rec(lines.deep_view()) =~= join_rec(lines.deep_view()));
    }
    while i < lines.len()
        invariant
            0 <= i <= lines.len(),
            lines.deep_view().len() == lines.len(),
            join_rec(lines.deep_view()) == out@ + join_rec(lines.deep_view().skip(i as int)),
        decreases lines.len() - i,
    {
        let ghost prev_out = out@;
        let ghost dv = lines.deep_view();
        proof {
            assert(dv.skip(i as int)[0] == dv[i as int]);
            assert(dv.skip(i as int).drop_first() =~= dv.skip(i as int + 1));
            assert(lines@[i as int]@ == dv[i as int]);
        }
        let line = &lines[i];
        push_range(&mut out, line.as_slice(), 0, line.len());
        out.push(10);
        proof {
            assert(lines@[i as int]@.subrange(0, lines@[i as int]@.len() as int) =~= dv[i as int]);
            assert(out@ =~= prev_out + dv[i as int] + seq![10u8]);
            assert(prev_out + dv[i as int] + seq![10u8] + join_rec(dv.skip(i as int + 1)) =~=
                prev_out + (dv[i as int] + seq![10u8] + join_rec(dv.skip(i as int + 1))));
        }
        i += 1;
    }
    proof {
        assert(lines.deep_view().skip(lines.len() as int)
            =~= Seq::<Seq<u8>>::empty());
        assert(out@ + Seq::<u8>::empty() =~= out@);
    }
    out
}

/// Rewrites the contents of a config file for preference `p`.
///
/// Succeeds exactly when both tags are found, and then returns the file
/// with the line carrying the activate tag uncommented, the line carrying
/// the deactivate tag commented out, and every other line unchanged. Fails
/// with the missing tag otherwise, the deactivate tag reported first.
pub fn adjust_config(content: &[u8], p: SchemePreference) -> (r: Result<Vec<u8>, RewriteError>)
    ensures
        r is Ok <==> adjust_succeeds(content@, p),
        r matches Ok(out) ==> out@ == adjusted_content(content@, p),
        r matches Err(e) ==> e matches RewriteError::TagNotFound { tag } && tag@
            == missing_tag_spec(content@, p),
{
    let lines = split_lines(content);
    let nt = if p == SchemePreference::Dark {
        dark_tag()
    } else {
        light_tag()
    };
    let ot = if p == SchemePreference::Dark {
        light_tag()
    } else {
        dark_tag()
    };
    let ghost all = lines.deep_view();
    let ghost full = adjust_rec(all, true, true, nt@, ot@);
    let mut out: Vec<Vec<u8>> = Vec::new();
    let mut new_pending = true;
    let mut old_pending = true;
    let mut i: usize = 0;
    proof {
        assert(all.skip(0) =~= all);
        assert(Seq::<Seq<u8>>::empty() + full.0 =~= full.0);
        assert(out.deep_view() =~= Seq::<Seq<u8>>::empty());
    }
    while i < lines.len()
        invariant
            0 <= i <= lines.len(),
            all == lines.deep_view(),
            all.len() == lines.len(),
            full == adjust_rec(all, true, true, nt@, ot@),
            nt@ == if p == SchemePreference::Dark {
                dark_tag_spec()
            } else {
                light_tag_spec()
            },
            ot@ == if p == SchemePreference::Dark {
                light_tag_spec()
            } else {
                dark_tag_spec()
            },
            full.0 == out.deep_view() + adjust_rec(
                all.skip(i as int),
                new_pending,
                old_pending,
                nt@,
                ot@,
            ).0,
            full.1 == adjust_rec(all.skip(i as int), new_pending, old_pending, nt@, ot@).1,
            full.2 == adjust_rec(all.skip(i as int), new_pending, old_pending, nt@, ot@).2,
        decreases lines.len() - i,
    {
        let ghost prev_out = out.deep_view();
        proof {
            assert(all.skip(i as int)[0] == all[i as int]);
            assert(all.skip(i as int).drop_first() =~= all.skip(i as int + 1));
            assert(lines@[i as int]@ == all[i as int]);
        }
        let line = &lines[i];
        if new_pending && matches_tag(line.as_slice(), nt.as_slice()) {
            new_pending = false;
            out.push(uncomment_line(line.as_slice()));
            proof {
                assert(out.deep_view() =~~= prev_out.push(uncomment_spec(all[i as int])));
            }
        } else if old_pending && matches_tag(line.as_slice(), ot.as_slice()) {
            old_pending = false;
            out.push(comment_line(line.as_slice()));
            proof {
                assert(out.deep_view() =~~= prev_out.push(comment_spec(all[i as int])));
            }
        } else {
            out.push(copy_line(line.as_slice()));
            proof {
                assert(out.deep_view() =~~= prev_out.push(all[i as int]));
            }
        }
        proof {
            let rec = adjust_rec(all.skip(i as int + 1), new_pending, old_pending, nt@, ot@);
            assert(out.deep_view() + rec.0 =~= prev_out + (seq![out.deep_view().last()] + rec.0));
        }
        i += 1;
    }
    proof {
        assert(all.skip(lines.len() as int) =~= Seq::<Seq<u8>>::empty());
        assert(out.deep_view() + Seq::<Seq<u8>>::empty() =~= out.deep_view());
    }
    if old_pending {
        return Err(RewriteError::TagNotFound { tag: ot });
    }
    if new_pending {
        return Err(RewriteError::TagNotFound { tag: nt });
    }
    Ok(join_lines(&out))
}

} // verus!
