//! Laws of the rewriter: it succeeds exactly when both tags are present,
//! applying it twice for one preference changes nothing the second time,
//! and applying it for one preference and then for the opposite one
//! restores the file.

use vstd::prelude::*;

use crate::preference::SchemePreference;
use crate::rewrite::activate_tag;
use crate::rewrite::adjust_rec;
use crate::rewrite::adjust_succeeds;
use crate::rewrite::adjusted_content;
use crate::rewrite::adjusted_lines;
use crate::rewrite::comment_spec;
use crate::rewrite::content_end;
use crate::rewrite::dark_tag_spec;
use crate::rewrite::deactivate_tag;
use crate::rewrite::ends_with;
use crate::rewrite::indent_len;
use crate::rewrite::is_commented;
use crate::rewrite::is_ws;
use crate::rewrite::join_rec;
use crate::rewrite::light_tag_spec;
use crate::rewrite::line_matches;
use crate::rewrite::split_lines_spec;
use crate::rewrite::split_rec;
use crate::rewrite::strip_one_cr;
use crate::rewrite::strip_one_space;
use crate::rewrite::tags_found;
use crate::rewrite::trim_left;
use crate::rewrite::trim_right;
use crate::rewrite::trim_spec;
use crate::rewrite::uncomment_spec;

verus! {

/// A well-formed tag: non-empty, with no whitespace byte.
pub open spec fn wf_tag(t: Seq<u8>) -> bool {
    t.len() > 0 && forall|j: int| 0 <= j < t.len() ==> !is_ws(#[trigger] t[j])
}

/// The line holds no newline byte.
pub open spec fn newline_free(l: Seq<u8>) -> bool {
    forall|j: int| 0 <= j < l.len() ==> #[trigger] l[j] != 10
}

/// A line as the splitter produces it, with no trailing carriage return:
/// it holds no newline byte and does not end in a carriage return.
pub open spec fn tidy_line(l: Seq<u8>) -> bool {
    newline_free(l) && (l.len() > 0 ==> l.last() != 13)
}

/// Uncommenting the line leaves `tag` in place and clears the comment
/// state for good: the result still carries the tag and no longer reads as
/// a comment. This is what a singly-commented tagged line satisfies, and a
/// doubly-commented one (`## ...`) does not.
pub open spec fn uncomment_stable(l: Seq<u8>, tag: Seq<u8>) -> bool {
    line_matches(uncomment_spec(l), tag) && !is_commented(uncomment_spec(l))
}

/// A commented line in the exact form the rewriter itself writes: `"# "`
/// at the start of the line, and uncommenting it is stable.
pub open spec fn canonically_commented(l: Seq<u8>, tag: Seq<u8>) -> bool {
    l.len() >= 2 && l[0] == 35 && l[1] == 32 && uncomment_stable(l, tag)
}

/// Two suffixes of one sequence: the shorter is a suffix of the longer.
proof fn lemma_suffix_of_suffix(s: Seq<u8>, a: Seq<u8>, b: Seq<u8>)
    requires
        ends_with(s, a),
        ends_with(s, b),
        a.len() <= b.len(),
    ensures
        ends_with(b, a),
{
    assert forall|j: int| 0 <= j < a.len() implies b.skip(b.len() - a.len())[j] == a[j] by {
        assert(s.skip(s.len() - b.len())[b.len() - a.len() + j] == s[s.len() - a.len() + j]);
        assert(s.skip(s.len() - a.len())[j] == s[s.len() - a.len() + j]);
    }
    assert(b.skip(b.len() - a.len()) =~= a);
}

/// No line carries both tags of a pair of which neither ends in the other.
proof fn lemma_matches_one_tag(l: Seq<u8>, a: Seq<u8>, b: Seq<u8>)
    requires
        !ends_with(a, b),
        !ends_with(b, a),
    ensures
        !(line_matches(l, a) && line_matches(l, b)),
{
    if line_matches(l, a) && line_matches(l, b) {
        if a.len() <= b.len() {
            lemma_suffix_of_suffix(trim_spec(l), a, b);
        } else {
            lemma_suffix_of_suffix(trim_spec(l), b, a);
        }
    }
}

/// Padding on the left that ends in whitespace neither makes nor breaks a
/// whitespace-free suffix.
proof fn lemma_ends_with_pad(x: Seq<u8>, y: Seq<u8>, t: Seq<u8>)
    requires
        wf_tag(t),
        x.len() > 0,
        is_ws(x.last()),
    ensures
        ends_with(x + y, t) == ends_with(y, t),
{
    let s = x + y;
    if ends_with(y, t) {
        assert forall|j: int| 0 <= j < t.len() implies s.skip(s.len() - t.len())[j] == t[j] by {
            assert(s[s.len() - t.len() + j] == y[y.len() - t.len() + j]);
            assert(y.skip(y.len() - t.len())[j] == y[y.len() - t.len() + j]);
        }
        assert(s.skip(s.len() - t.len()) =~= t);
    }
    if ends_with(s, t) {
        if t.len() > y.len() {
            let j = t.len() - y.len() - 1;
            assert(s.skip(s.len() - t.len())[j] == s[x.len() - 1]);
            assert(t[j] == x.last());
            assert(!is_ws(t[j]));
        } else {
            assert forall|j: int| 0 <= j < t.len() implies y.skip(y.len() - t.len())[j]
                == t[j] by {
                assert(y[y.len() - t.len() + j] == s[s.len() - t.len() + j]);
                assert(s.skip(s.len() - t.len())[j] == s[s.len() - t.len() + j]);
            }
            assert(y.skip(y.len() - t.len()) =~= t);
        }
    }
}

/// A line that carries a well-formed tag has a non-empty trimmed form.
proof fn lemma_matches_nonempty(l: Seq<u8>, t: Seq<u8>)
    requires
        wf_tag(t),
        line_matches(l, t),
    ensures
        trim_spec(l).len() > 0,
{
}

/// The trimmed form of a freshly commented line: `"# "`, the original
/// indentation, then the original trimmed form.
proof fn lemma_comment_trim(l: Seq<u8>)
    requires
        !is_commented(l),
        trim_spec(l).len() > 0,
    ensures
        trim_spec(comment_spec(l)) == seq![35u8, 32u8] + l.take(content_end(l)),
        l.take(content_end(l)) == l.take(indent_len(l)) + trim_spec(l),
{
    crate::rewrite::lemma_trim_shape(l);
    let c = comment_spec(l);
    assert(c == seq![35u8, 32u8] + l);
    assert(c[0] == 35);
    assert(!is_ws(c[0]));
    assert(trim_left(c) == c);
    let k = 2 + content_end(l);
    assert forall|j: int| k <= j < c.len() implies is_ws(#[trigger] c[j]) by {
        assert(c[j] == l[j - 2]);
    }
    assert(c[k - 1] == l[content_end(l) - 1]);
    crate::rewrite::lemma_trim_right_of(c, k);
    assert(c.take(k) =~= seq![35u8, 32u8] + l.take(content_end(l)));
    assert(l.take(content_end(l)) =~= l.take(indent_len(l)) + trim_spec(l));
}

/// Commenting a line out neither makes nor breaks the tag it carries.
proof fn lemma_comment_matches(l: Seq<u8>, t: Seq<u8>)
    requires
        wf_tag(t),
        trim_spec(l).len() > 0,
    ensures
        line_matches(comment_spec(l), t) == line_matches(l, t),
{
    if !is_commented(l) {
        crate::rewrite::lemma_trim_shape(l);
        lemma_comment_trim(l);
        let w = l.take(indent_len(l));
        let x = seq![35u8, 32u8] + w;
        assert(trim_spec(comment_spec(l)) =~= x + trim_spec(l));
        if w.len() > 0 {
            assert(x.last() == w.last());
            assert(w.last() == l[indent_len(l) - 1]);
        } else {
            assert(x.last() == 32);
        }
        lemma_ends_with_pad(x, trim_spec(l), t);
    }
}

/// A commented-out line reads as a comment.
proof fn lemma_comment_commented(l: Seq<u8>)
    ensures
        is_commented(comment_spec(l)),
{
    if !is_commented(l) {
        let c = comment_spec(l);
        assert(c == seq![35u8, 32u8] + l);
        assert(c[0] == 35);
        assert(!is_ws(c[0]));
        assert(trim_left(c) == c);
        crate::rewrite::lemma_trim_right_shape(c);
        if trim_right(c).len() == 0 {
            assert(is_ws(c[0]));
        }
        assert(trim_spec(c)[0] == c[0]);
    }
}

/// Uncommenting undoes commenting exactly, on any line that does not read
/// as a comment.
proof fn lemma_uncomment_comment(l: Seq<u8>)
    requires
        !is_commented(l),
    ensures
        uncomment_spec(comment_spec(l)) == l,
{
    let c = comment_spec(l);
    assert(c == seq![35u8, 32u8] + l);
    lemma_comment_commented(l);
    assert(c[0] == 35);
    assert(!is_ws(c[0]));
    assert(trim_left(c) == c);
    assert(indent_len(c) == 0);
    assert(c.skip(1) =~= seq![32u8] + l);
    assert(c.skip(1)[0] == 32);
    assert(strip_one_space(c.skip(1)) =~= l);
    assert(uncomment_spec(c) =~= c.take(0) + strip_one_space(c.skip(1)));
    assert(uncomment_spec(c) =~= l);
}

/// Commenting undoes uncommenting exactly, on a line in the canonical
/// commented form.
#[verifier::rlimit(50)]
proof fn lemma_comment_uncomment(l: Seq<u8>, t: Seq<u8>)
    requires
        canonically_commented(l, t),
    ensures
        is_commented(l),
        comment_spec(uncomment_spec(l)) == l,
        uncomment_spec(l) == l.skip(2),
{
    assert(is_commented(l)) by {
        assert(!is_ws(l[0]));
        assert(trim_left(l) == l);
        crate::rewrite::lemma_trim_right_shape(l);
        if trim_right(l).len() == 0 {
            assert(is_ws(l[0]));
        }
        assert(trim_spec(l)[0] == l[0]);
    }
    assert(indent_len(l) == 0) by {
        assert(!is_ws(l[0]));
        assert(trim_left(l) == l);
    }
    assert(uncomment_spec(l) == l.skip(2)) by {
        assert(l.skip(1)[0] == l[1]);
        assert(strip_one_space(l.skip(1)) =~= l.skip(2));
        assert(uncomment_spec(l) =~= l.take(0) + strip_one_space(l.skip(1)));
    }
    assert(comment_spec(uncomment_spec(l)) == l) by {
        assert(!is_commented(uncomment_spec(l)));
        assert(comment_spec(l.skip(2)) == seq![35u8, 32u8] + l.skip(2));
        assert(seq![35u8, 32u8] + l.skip(2) =~= l);
    }
}

/// The two tags are well formed and neither ends in the other, so no line
/// carries both.
proof fn lemma_tags_wf()
    ensures
        wf_tag(dark_tag_spec()),
        wf_tag(light_tag_spec()),
        !ends_with(dark_tag_spec(), light_tag_spec()),
        !ends_with(light_tag_spec(), dark_tag_spec()),
{
    let d = dark_tag_spec();
    let lt = light_tag_spec();
    assert forall|j: int| 0 <= j < d.len() implies !is_ws(#[trigger] d[j]) by {
        assert(d[j] >= 35);
    }
    assert forall|j: int| 0 <= j < lt.len() implies !is_ws(#[trigger] lt[j]) by {
        assert(lt[j] >= 35);
    }
    if ends_with(lt, d) {
        assert(lt.skip(1)[0] == lt[1]);
        assert(lt[1] == 91);
        assert(d[0] == 35);
    }
}

/// One rewrite pass changes nothing on its own output: the same lines
/// match, and their comment state already agrees with the tags.
///
/// The lines that carry the activate tag must uncomment stably; a
/// doubly-commented tagged line is uncommented once more by a second pass.
proof fn lemma_adjust_rec_idempotent(
    lines: Seq<Seq<u8>>,
    np: bool,
    op: bool,
    nt: Seq<u8>,
    ot: Seq<u8>,
)
    requires
        wf_tag(nt),
        wf_tag(ot),
        !ends_with(nt, ot),
        !ends_with(ot, nt),
        forall|k: int|
            0 <= k < lines.len() && line_matches(#[trigger] lines[k], nt) ==> uncomment_stable(
                lines[k],
                nt,
            ),
    ensures
        adjust_rec(adjust_rec(lines, np, op, nt, ot).0, np, op, nt, ot) == adjust_rec(
            lines,
            np,
            op,
            nt,
            ot,
        ),
    decreases lines.len(),
{
    let pass1 = adjust_rec(lines, np, op, nt, ot);
    let out = pass1.0;
    let pass2 = adjust_rec(out, np, op, nt, ot);
    if lines.len() == 0 {
        assert(out =~= Seq::<Seq<u8>>::empty());
        assert(pass2.0 =~= out);
    } else {
        let l = lines[0];
        let rest = lines.drop_first();
        assert forall|k: int|
            0 <= k < rest.len() && line_matches(#[trigger] rest[k], nt) implies uncomment_stable(
            rest[k],
            nt,
        ) by {
            assert(rest[k] == lines[k + 1]);
        }
        if np && line_matches(l, nt) {
            assert(uncomment_stable(l, nt));
            let u = uncomment_spec(l);
            let rec = adjust_rec(rest, false, op, nt, ot);
            lemma_adjust_rec_idempotent(rest, false, op, nt, ot);
            assert(out == seq![u] + rec.0);
            assert(out[0] == u);
            assert(line_matches(u, nt));
            assert(uncomment_spec(u) == u);
            assert(out.drop_first() =~= rec.0);
            assert(pass2.0 =~= seq![u] + rec.0);
        } else if op && line_matches(l, ot) {
            lemma_matches_nonempty(l, ot);
            let c = comment_spec(l);
            lemma_comment_matches(l, ot);
            lemma_comment_commented(l);
            if np {
                lemma_comment_matches(l, nt);
            }
            let rec = adjust_rec(rest, np, false, nt, ot);
            lemma_adjust_rec_idempotent(rest, np, false, nt, ot);
            assert(out == seq![c] + rec.0);
            assert(out[0] == c);
            assert(line_matches(c, ot));
            assert(np ==> !line_matches(c, nt));
            assert(comment_spec(c) == c);
            assert(out.drop_first() =~= rec.0);
            assert(pass2.0 =~= seq![c] + rec.0);
        } else {
            let rec = adjust_rec(rest, np, op, nt, ot);
            lemma_adjust_rec_idempotent(rest, np, op, nt, ot);
            assert(out == seq![l] + rec.0);
            assert(out[0] == l);
            assert(out.drop_first() =~= rec.0);
            assert(pass2.0 =~= seq![l] + rec.0);
        }
    }
}

/// A pass that activates `at` and deactivates `dt`, undone by a pass that
/// activates `dt` and deactivates `at`: the second pass restores every
/// line, provided the `at` lines start out commented in the canonical form
/// and the `dt` lines start out uncommented. The pending flags of the
/// second pass mirror those of the first with the tags' roles swapped.
proof fn lemma_adjust_rec_round_trip(
    lines: Seq<Seq<u8>>,
    np: bool,
    op: bool,
    at: Seq<u8>,
    dt: Seq<u8>,
)
    requires
        wf_tag(at),
        wf_tag(dt),
        !ends_with(at, dt),
        !ends_with(dt, at),
        forall|k: int|
            0 <= k < lines.len() && line_matches(#[trigger] lines[k], at)
                ==> canonically_commented(lines[k], at),
        forall|k: int|
            0 <= k < lines.len() && line_matches(#[trigger] lines[k], dt) ==> !is_commented(
                lines[k],
            ),
    ensures
        adjust_rec(adjust_rec(lines, np, op, at, dt).0, op, np, dt, at).0 == lines,
        adjust_rec(adjust_rec(lines, np, op, at, dt).0, op, np, dt, at).1 == adjust_rec(
            lines,
            np,
            op,
            at,
            dt,
        ).2,
        adjust_rec(adjust_rec(lines, np, op, at, dt).0, op, np, dt, at).2 == adjust_rec(
            lines,
            np,
            op,
            at,
            dt,
        ).1,
    decreases lines.len(),
{
    let pass1 = adjust_rec(lines, np, op, at, dt);
    let out = pass1.0;
    let pass2 = adjust_rec(out, op, np, dt, at);
    if lines.len() == 0 {
        assert(out =~= Seq::<Seq<u8>>::empty());
        assert(pass2.0 =~= lines);
    } else {
        let l = lines[0];
        let rest = lines.drop_first();
        assert forall|k: int|
            0 <= k < rest.len() && line_matches(#[trigger] rest[k], at) implies
            canonically_commented(rest[k], at) by {
            assert(rest[k] == lines[k + 1]);
        }
        assert forall|k: int|
            0 <= k < rest.len() && line_matches(#[trigger] rest[k], dt) implies !is_commented(
            rest[k],
        ) by {
            assert(rest[k] == lines[k + 1]);
        }
        if np && line_matches(l, at) {
            assert(canonically_commented(l, at));
            lemma_comment_uncomment(l, at);
            let u = uncomment_spec(l);
            let rec = adjust_rec(rest, false, op, at, dt);
            lemma_adjust_rec_round_trip(rest, false, op, at, dt);
            assert(out == seq![u] + rec.0);
            assert(out[0] == u);
            assert(out.drop_first() =~= rec.0);
            assert(line_matches(u, at));
            lemma_matches_one_tag(u, at, dt);
            assert(!line_matches(u, dt));
            assert(comment_spec(u) == l);
            assert(pass2.0 =~= seq![l] + adjust_rec(rec.0, op, false, dt, at).0);
            assert(pass2.0 =~= lines);
        } else if op && line_matches(l, dt) {
            assert(!is_commented(l));
            lemma_matches_nonempty(l, dt);
            let c = comment_spec(l);
            lemma_comment_matches(l, dt);
            lemma_uncomment_comment(l);
            let rec = adjust_rec(rest, np, false, at, dt);
            lemma_adjust_rec_round_trip(rest, np, false, at, dt);
            assert(out == seq![c] + rec.0);
            assert(out[0] == c);
            assert(out.drop_first() =~= rec.0);
            assert(line_matches(c, dt));
            assert(uncomment_spec(c) == l);
            assert(pass2.0 =~= seq![l] + adjust_rec(rec.0, false, np, dt, at).0);
            assert(pass2.0 =~= lines);
        } else {
            let rec = adjust_rec(rest, np, op, at, dt);
            lemma_adjust_rec_round_trip(rest, np, op, at, dt);
            assert(out == seq![l] + rec.0);
            assert(out[0] == l);
            assert(out.drop_first() =~= rec.0);
            assert(pass2.0 =~= seq![l] + adjust_rec(rec.0, op, np, dt, at).0);
            assert(pass2.0 =~= lines);
        }
    }
}

/// The splitter consumes newline-free bytes into the partial line.
proof fn lemma_split_consume(pre: Seq<u8>, rest: Seq<u8>, cur: Seq<u8>)
    requires
        forall|j: int| 0 <= j < pre.len() ==> #[trigger] pre[j] != 10,
    ensures
        split_rec(pre + rest, cur) == split_rec(rest, cur + pre),
    decreases pre.len(),
{
    if pre.len() == 0 {
        assert(pre + rest =~= rest);
        assert(cur + pre =~= cur);
    } else {
        let s = pre + rest;
        assert(s[0] == pre[0]);
        assert(s.drop_first() =~= pre.drop_first() + rest);
        lemma_split_consume(pre.drop_first(), rest, cur.push(pre[0]));
        assert(cur.push(pre[0]) + pre.drop_first() =~= cur + pre);
    }
}

/// Splitting undoes joining on tidy lines: every line is newline-free and
/// carries no trailing carriage return.
proof fn lemma_split_join(ls: Seq<Seq<u8>>)
    requires
        forall|k: int| 0 <= k < ls.len() ==> tidy_line(#[trigger] ls[k]),
    ensures
        split_lines_spec(join_rec(ls)) == ls,
    decreases ls.len(),
{
    if ls.len() == 0 {
    } else {
        let l = ls[0];
        let rest = ls.drop_first();
        assert(tidy_line(l));
        assert forall|k: int| 0 <= k < rest.len() implies tidy_line(#[trigger] rest[k]) by {
            assert(rest[k] == ls[k + 1]);
        }
        lemma_split_join(rest);
        let tail = seq![10u8] + join_rec(rest);
        assert(join_rec(ls) =~= l + tail);
        lemma_split_consume(l, tail, Seq::empty());
        assert(split_rec(join_rec(ls), Seq::empty()) == split_rec(tail, Seq::empty() + l));
        assert(Seq::empty() + l =~= l);
        assert(tail[0] == 10);
        assert(tail.drop_first() =~= join_rec(rest));
        assert(strip_one_cr(l) == l);
        assert(split_rec(tail, l) == seq![l] + split_rec(join_rec(rest), Seq::empty()));
        assert(seq![l] + rest =~= ls);
    }
}

/// Every line the splitter produces is free of newline bytes.
proof fn lemma_split_no_newline(rest: Seq<u8>, cur: Seq<u8>)
    requires
        forall|j: int| 0 <= j < cur.len() ==> #[trigger] cur[j] != 10,
    ensures
        forall|k: int|
            0 <= k < split_rec(rest, cur).len() ==> newline_free(
                #[trigger] split_rec(rest, cur)[k],
            ),
    decreases rest.len(),
{
    if rest.len() == 0 {
        let s = split_rec(rest, cur);
        if cur.len() > 0 {
            assert(s[0] == cur);
            assert(newline_free(cur));
        }
    } else if rest[0] == 10 {
        lemma_split_no_newline(rest.drop_first(), Seq::empty());
        let s = split_rec(rest, cur);
        let r = split_rec(rest.drop_first(), Seq::empty());
        assert forall|k: int| 0 <= k < s.len() implies newline_free(#[trigger] s[k]) by {
            if k == 0 {
                assert(s[0] == strip_one_cr(cur));
                assert forall|j: int|
                    0 <= j < strip_one_cr(cur).len() implies #[trigger] strip_one_cr(cur)[j]
                    != 10 by {
                    assert(strip_one_cr(cur)[j] == cur[j]);
                }
            } else {
                assert(s[k] == r[k - 1]);
            }
        }
    } else {
        assert forall|j: int| 0 <= j < cur.push(rest[0]).len() implies #[trigger] cur.push(
            rest[0],
        )[j] != 10 by {
            if j < cur.len() {
                assert(cur.push(rest[0])[j] == cur[j]);
            }
        }
        lemma_split_no_newline(rest.drop_first(), cur.push(rest[0]));
        let s = split_rec(rest, cur);
        let r = split_rec(rest.drop_first(), cur.push(rest[0]));
        assert forall|k: int| 0 <= k < s.len() implies newline_free(#[trigger] s[k]) by {
            assert(s[k] == r[k]);
        }
    }
}

/// Uncommenting a line that carries a tag of at least two bytes keeps it
/// tidy: the edit only touches the front of the line.
proof fn lemma_uncomment_tidy(l: Seq<u8>, t: Seq<u8>)
    requires
        tidy_line(l),
        wf_tag(t),
        t.len() >= 2,
        line_matches(l, t),
    ensures
        tidy_line(uncomment_spec(l)),
{
    if is_commented(l) {
        crate::rewrite::lemma_trim_shape(l);
        let h = indent_len(l);
        let ce = content_end(l);
        assert(ce - h >= t.len());
        let r = l.skip(h + 1);
        let sr = strip_one_space(r);
        let u = uncomment_spec(l);
        assert(u == l.take(h) + sr);
        assert forall|j: int| 0 <= j < u.len() implies #[trigger] u[j] != 10 by {
            if j < h {
                assert(u[j] == l[j]);
            } else {
                if sr == r {
                    assert(u[j] == l[j + 1]);
                } else {
                    assert(sr =~= l.skip(h + 2));
                    assert(u[j] == l[j + 2]);
                }
            }
        }
        assert(r.len() >= ce - h - 1 >= 1);
        if sr == r {
            assert(sr.len() > 0);
            assert(sr.last() == l.last());
        } else {
            assert(r[0] == 32);
            assert(!is_ws(l[ce - 1]));
            assert(r[ce - 1 - (h + 1)] == l[ce - 1]);
            assert(ce - 1 - (h + 1) >= 1);
            assert(sr.len() > 0);
            assert(sr.last() == r.last());
            assert(r.last() == l.last());
        }
        assert(u.len() > 0);
        assert(u.last() == sr.last());
    }
}

/// Commenting a line out keeps it tidy.
proof fn lemma_comment_tidy(l: Seq<u8>)
    requires
        tidy_line(l),
    ensures
        tidy_line(comment_spec(l)),
{
    if !is_commented(l) {
        let c = comment_spec(l);
        assert(c == seq![35u8, 32u8] + l);
        assert forall|j: int| 0 <= j < c.len() implies #[trigger] c[j] != 10 by {
            if j >= 2 {
                assert(c[j] == l[j - 2]);
            }
        }
        if l.len() > 0 {
            assert(c.last() == l.last());
        } else {
            assert(c.last() == 32);
        }
    }
}

/// One rewrite pass keeps every line tidy and the number of lines.
proof fn lemma_adjust_rec_tidy(lines: Seq<Seq<u8>>, np: bool, op: bool, nt: Seq<u8>, ot: Seq<u8>)
    requires
        wf_tag(nt),
        wf_tag(ot),
        nt.len() >= 2,
        ot.len() >= 2,
        forall|k: int| 0 <= k < lines.len() ==> tidy_line(#[trigger] lines[k]),
    ensures
        adjust_rec(lines, np, op, nt, ot).0.len() == lines.len(),
        forall|k: int|
            0 <= k < lines.len() ==> tidy_line(#[trigger] adjust_rec(lines, np, op, nt, ot).0[k]),
    decreases lines.len(),
{
    if lines.len() == 0 {
    } else {
        let l = lines[0];
        let rest = lines.drop_first();
        assert forall|k: int| 0 <= k < rest.len() implies tidy_line(#[trigger] rest[k]) by {
            assert(rest[k] == lines[k + 1]);
        }
        let pass = adjust_rec(lines, np, op, nt, ot);
        if np && line_matches(l, nt) {
            lemma_uncomment_tidy(l, nt);
            lemma_adjust_rec_tidy(rest, false, op, nt, ot);
        } else if op && line_matches(l, ot) {
            lemma_comment_tidy(l);
            lemma_adjust_rec_tidy(rest, np, false, nt, ot);
        } else {
            lemma_adjust_rec_tidy(rest, np, op, nt, ot);
        }
        assert forall|k: int| 0 <= k < lines.len() implies tidy_line(#[trigger] pass.0[k]) by {
            if k > 0 {
                if np && line_matches(l, nt) {
                    assert(pass.0[k] == adjust_rec(rest, false, op, nt, ot).0[k - 1]);
                } else if op && line_matches(l, ot) {
                    assert(pass.0[k] == adjust_rec(rest, np, false, nt, ot).0[k - 1]);
                } else {
                    assert(pass.0[k] == adjust_rec(rest, np, op, nt, ot).0[k - 1]);
                }
            }
        }
    }
}

/// The tag pair of any preference is well formed, with tags of at least
/// two bytes of which neither ends in the other.
proof fn lemma_pref_tags(p: SchemePreference)
    ensures
        wf_tag(activate_tag(p)),
        wf_tag(deactivate_tag(p)),
        !ends_with(activate_tag(p), deactivate_tag(p)),
        !ends_with(deactivate_tag(p), activate_tag(p)),
        activate_tag(p).len() >= 2,
        deactivate_tag(p).len() >= 2,
{
    lemma_tags_wf();
}

/// A pass leaves a tag pending exactly when it was pending and no line
/// carries it.
proof fn lemma_adjust_rec_flags(lines: Seq<Seq<u8>>, np: bool, op: bool, nt: Seq<u8>, ot: Seq<u8>)
    requires
        !ends_with(nt, ot),
        !ends_with(ot, nt),
    ensures
        adjust_rec(lines, np, op, nt, ot).1 == (np && !exists|k: int|
            0 <= k < lines.len() && line_matches(#[trigger] lines[k], nt)),
        adjust_rec(lines, np, op, nt, ot).2 == (op && !exists|k: int|
            0 <= k < lines.len() && line_matches(#[trigger] lines[k], ot)),
    decreases lines.len(),
{
    if lines.len() == 0 {
    } else {
        let l = lines[0];
        let rest = lines.drop_first();
        lemma_matches_one_tag(l, nt, ot);
        if np && line_matches(l, nt) {
            lemma_adjust_rec_flags(rest, false, op, nt, ot);
        } else if op && line_matches(l, ot) {
            lemma_adjust_rec_flags(rest, np, false, nt, ot);
        } else {
            lemma_adjust_rec_flags(rest, np, op, nt, ot);
        }
        lemma_exists_match_shift(lines, nt);
        lemma_exists_match_shift(lines, ot);
    }
}

/// Some line of a non-empty sequence carries the tag exactly when the
/// first line does or some later line does.
proof fn lemma_exists_match_shift(lines: Seq<Seq<u8>>, t: Seq<u8>)
    requires
        lines.len() > 0,
    ensures
        (exists|k: int| 0 <= k < lines.len() && line_matches(#[trigger] lines[k], t)) == (
        line_matches(lines[0], t) || exists|k: int|
            0 <= k < lines.drop_first().len() && line_matches(
                #[trigger] lines.drop_first()[k],
                t,
            )),
{
    let rest = lines.drop_first();
    if exists|k: int| 0 <= k < lines.len() && line_matches(#[trigger] lines[k], t) {
        let k = choose|k: int| 0 <= k < lines.len() && line_matches(#[trigger] lines[k], t);
        if k > 0 {
            assert(rest[k - 1] == lines[k]);
            assert(line_matches(rest[k - 1], t));
        }
    }
    if exists|k: int| 0 <= k < rest.len() && line_matches(#[trigger] rest[k], t) {
        let k = choose|k: int| 0 <= k < rest.len() && line_matches(#[trigger] rest[k], t);
        assert(lines[k + 1] == rest[k]);
        assert(line_matches(lines[k + 1], t));
    }
}

/// A rewrite succeeds exactly when some line carries the activate tag and
/// some line carries the deactivate tag: a file lacking either tag is
/// rejected rather than partially updated.
pub proof fn lemma_success_iff_tags_present(content: Seq<u8>, p: SchemePreference)
    ensures
        adjust_succeeds(content, p) <==> ((exists|k: int|
            0 <= k < split_lines_spec(content).len() && line_matches(
                #[trigger] split_lines_spec(content)[k],
                activate_tag(p),
            )) && (exists|k: int|
            0 <= k < split_lines_spec(content).len() && line_matches(
                #[trigger] split_lines_spec(content)[k],
                deactivate_tag(p),
            ))),
{
    lemma_pref_tags(p);
    lemma_adjust_rec_flags(
        split_lines_spec(content),
        true,
        true,
        activate_tag(p),
        deactivate_tag(p),
    );
}

/// Rewriting a file twice for one preference gives the same bytes as
/// rewriting it once: the first pass leaves every line in the state the
/// second pass asks for.
///
/// The law asks that no line carry a trailing carriage return (rewriting
/// normalises line endings, so `"x\r\r\n"` loses one return per pass) and
/// that the line carrying the activate tag uncomment stably (a
/// doubly-commented tagged line loses one `#` per pass).
pub proof fn lemma_rewrite_idempotent(content: Seq<u8>, p: SchemePreference)
    requires
        adjust_succeeds(content, p),
        forall|k: int|
            0 <= k < split_lines_spec(content).len() ==> ((#[trigger] split_lines_spec(
                content,
            )[k]).len() > 0 ==> split_lines_spec(content)[k].last() != 13),
        forall|k: int|
            0 <= k < split_lines_spec(content).len() && line_matches(
                #[trigger] split_lines_spec(content)[k],
                activate_tag(p),
            ) ==> uncomment_stable(split_lines_spec(content)[k], activate_tag(p)),
    ensures
        adjust_succeeds(adjusted_content(content, p), p),
        adjusted_content(adjusted_content(content, p), p) == adjusted_content(content, p),
{
    let lines = split_lines_spec(content);
    let at = activate_tag(p);
    let dt = deactivate_tag(p);
    lemma_pref_tags(p);
    lemma_split_no_newline(content, Seq::empty());
    assert forall|k: int| 0 <= k < lines.len() implies tidy_line(#[trigger] lines[k]) by {
        assert(newline_free(lines[k]));
    }
    let pass1 = adjust_rec(lines, true, true, at, dt);
    lemma_adjust_rec_tidy(lines, true, true, at, dt);
    let d = adjusted_content(content, p);
    assert(d == join_rec(pass1.0));
    lemma_split_join(pass1.0);
    assert(split_lines_spec(d) == pass1.0);
    lemma_adjust_rec_idempotent(lines, true, true, at, dt);
    assert(adjust_rec(pass1.0, true, true, at, dt) == pass1);
    assert(tags_found(split_lines_spec(d), p));
    assert(adjusted_lines(split_lines_spec(d), p) == pass1.0);
}

/// Rewriting for one preference and then for the opposite one restores the
/// file, line for line: the tags swap their comment state exactly once
/// each. The result equals the original with every line newline-terminated
/// (one rewrite already normalises line endings).
///
/// The law asks that the file start out in the state the second preference
/// would write: the line carrying the first pass's activate tag commented
/// in the canonical `"# "` form, and the line carrying its deactivate tag
/// uncommented.
pub proof fn lemma_rewrite_round_trip(content: Seq<u8>, p: SchemePreference, q: SchemePreference)
    requires
        activate_tag(q) == deactivate_tag(p),
        deactivate_tag(q) == activate_tag(p),
        adjust_succeeds(content, p),
        forall|k: int|
            0 <= k < split_lines_spec(content).len() ==> ((#[trigger] split_lines_spec(
                content,
            )[k]).len() > 0 ==> split_lines_spec(content)[k].last() != 13),
        forall|k: int|
            0 <= k < split_lines_spec(content).len() && line_matches(
                #[trigger] split_lines_spec(content)[k],
                activate_tag(p),
            ) ==> canonically_commented(split_lines_spec(content)[k], activate_tag(p)),
        forall|k: int|
            0 <= k < split_lines_spec(content).len() && line_matches(
                #[trigger] split_lines_spec(content)[k],
                deactivate_tag(p),
            ) ==> !is_commented(split_lines_spec(content)[k]),
    ensures
        adjust_succeeds(adjusted_content(content, p), q),
        adjusted_content(adjusted_content(content, p), q) == join_rec(split_lines_spec(content)),
{
    let lines = split_lines_spec(content);
    let at = activate_tag(p);
    let dt = deactivate_tag(p);
    lemma_pref_tags(p);
    lemma_split_no_newline(content, Seq::empty());
    assert forall|k: int| 0 <= k < lines.len() implies tidy_line(#[trigger] lines[k]) by {
        assert(newline_free(lines[k]));
    }
    let pass1 = adjust_rec(lines, true, true, at, dt);
    lemma_adjust_rec_tidy(lines, true, true, at, dt);
    let d = adjusted_content(content, p);
    assert(d == join_rec(pass1.0));
    lemma_split_join(pass1.0);
    assert(split_lines_spec(d) == pass1.0);
    lemma_adjust_rec_round_trip(lines, true, true, at, dt);
    let pass2 = adjust_rec(pass1.0, true, true, dt, at);
    assert(pass2.0 == lines);
    assert(tags_found(split_lines_spec(d), q));
    assert(adjusted_lines(split_lines_spec(d), q) == lines);
}

} // verus!
