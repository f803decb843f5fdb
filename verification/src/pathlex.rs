//! Lexical path analysis: splitting a UTF-8 path into components, cleaning
//! `.`/`..` segments, joining, and component-wise prefix tests.
//!
//! All of this is purely lexical: no filesystem access. A path is absolute
//! when it starts with `/`; it splits into segments at `/`, where empty
//! segments and `.` segments carry no meaning and are dropped.

use vstd::prelude::*;

verus! {

/// A path is absolute when its first character is `/`.
pub open spec fn is_abs(s: Seq<char>) -> bool {
    s.len() > 0 && s[0] == '/'
}

/// Segments that carry meaning: nonempty and not `.`.
pub open spec fn keep_seg(seg: Seq<char>) -> bool {
    seg.len() > 0 && seg != seq!['.']
}

/// The `..` segment.
pub open spec fn is_dotdot(seg: Seq<char>) -> bool {
    seg == seq!['.', '.']
}

/// Split the rest of a path into segments, `cur` being the partial segment
/// accumulated so far.
pub open spec fn split_from(s: Seq<char>, cur: Seq<char>) -> Seq<Seq<char>>
    decreases s.len(),
{
    if s.len() == 0 {
        if keep_seg(cur) {
            seq![cur]
        } else {
            seq![]
        }
    } else if s[0] == '/' {
        (if keep_seg(cur) {
            seq![cur]
        } else {
            seq![]
        }) + split_from(s.drop_first(), seq![])
    } else {
        split_from(s.drop_first(), cur.push(s[0]))
    }
}

/// The meaningful segments of a path string.
pub open spec fn segments(s: Seq<char>) -> Seq<Seq<char>> {
    split_from(s, seq![])
}

/// A well-formed segment: nonempty, free of `/`, and not `.`.
pub open spec fn seg_wf(seg: Seq<char>) -> bool {
    &&& seg.len() > 0
    &&& seg != seq!['.']
    &&& forall|i: int| 0 <= i < seg.len() ==> seg[i] != '/'
}

pub open spec fn all_segs_wf(segs: Seq<Seq<char>>) -> bool {
    forall|i: int| 0 <= i < segs.len() ==> seg_wf(#[trigger] segs[i])
}

/// One step of lexical cleaning: push a segment onto the cleaned stack.
/// `..` pops the previous segment; at the root of an absolute path it is
/// dropped, while a relative path keeps leading `..` segments.
pub open spec fn clean_step(absolute: bool, stack: Seq<Seq<char>>, seg: Seq<char>) -> Seq<Seq<char>> {
    if is_dotdot(seg) {
        if absolute {
            if stack.len() > 0 {
                stack.drop_last()
            } else {
                stack
            }
        } else {
            if stack.len() > 0 && !is_dotdot(stack.last()) {
                stack.drop_last()
            } else {
                stack.push(seg)
            }
        }
    } else {
        stack.push(seg)
    }
}

pub open spec fn clean_from(absolute: bool, stack: Seq<Seq<char>>, segs: Seq<Seq<char>>) -> Seq<
    Seq<char>,
>
    decreases segs.len(),
{
    if segs.len() == 0 {
        stack
    } else {
        clean_from(absolute, clean_step(absolute, stack, segs[0]), segs.drop_first())
    }
}

/// Lexically cleaned segment sequence.
pub open spec fn clean_segs(absolute: bool, segs: Seq<Seq<char>>) -> Seq<Seq<char>> {
    clean_from(absolute, seq![], segs)
}

pub open spec fn has_dotdot(segs: Seq<Seq<char>>) -> bool {
    exists|i: int| 0 <= i < segs.len() && is_dotdot(#[trigger] segs[i])
}

/// Component-wise prefix.
pub open spec fn is_seg_prefix(pre: Seq<Seq<char>>, full: Seq<Seq<char>>) -> bool {
    pre.len() <= full.len() && full.subrange(0, pre.len() as int) == pre
}

/// Join the segments after the first with `/` separators.
pub open spec fn join_rest(segs: Seq<Seq<char>>) -> Seq<char>
    decreases segs.len(),
{
    if segs.len() == 0 {
        seq![]
    } else {
        seq!['/'] + segs[0] + join_rest(segs.drop_first())
    }
}

/// Join segments with `/` separators; empty for no segments.
pub open spec fn join_segs(segs: Seq<Seq<char>>) -> Seq<char> {
    if segs.len() == 0 {
        seq![]
    } else {
        segs[0] + join_rest(segs.drop_first())
    }
}

/// The string form of a cleaned path: `/`-rooted when absolute, `.` for an
/// empty relative path.
pub open spec fn path_string(absolute: bool, segs: Seq<Seq<char>>) -> Seq<char> {
    if absolute {
        seq!['/'] + join_segs(segs)
    } else if segs.len() == 0 {
        seq!['.']
    } else {
        join_segs(segs)
    }
}

/// Splitting slides `/`-free characters from the front of the path into the
/// partial segment.
pub proof fn lemma_split_absorb(seg: Seq<char>, s: Seq<char>, cur: Seq<char>)
    requires
        forall|i: int| 0 <= i < seg.len() ==> seg[i] != '/',
    ensures
        split_from(seg + s, cur) == split_from(s, cur + seg),
    decreases seg.len(),
{
    if seg.len() == 0 {
        assert(seg + s =~= s);
        assert(cur + seg =~= cur);
    } else {
        assert((seg + s)[0] == seg[0]);
        assert((seg + s).drop_first() =~= seg.drop_first() + s);
        assert(cur.push(seg[0]) + seg.drop_first() =~= cur + seg);
        lemma_split_absorb(seg.drop_first(), s, cur.push(seg[0]));
    }
}

/// Every segment produced by splitting is well formed, as long as the
/// partial segment holds no `/`.
pub proof fn lemma_split_wf(s: Seq<char>, cur: Seq<char>)
    requires
        forall|i: int| 0 <= i < cur.len() ==> cur[i] != '/',
    ensures
        all_segs_wf(split_from(s, cur)),
    decreases s.len(),
{
    if s.len() == 0 {
    } else if s[0] == '/' {
        lemma_split_wf(s.drop_first(), seq![]);
        let pre: Seq<Seq<char>> = if keep_seg(cur) {
            seq![cur]
        } else {
            seq![]
        };
        let rest = split_from(s.drop_first(), seq![]);
        assert forall|i: int| 0 <= i < split_from(s, cur).len() implies seg_wf(
            #[trigger] split_from(s, cur)[i],
        ) by {
            if i >= pre.len() {
                assert(split_from(s, cur)[i] == rest[i - pre.len()]);
            }
        }
    } else {
        lemma_split_wf(s.drop_first(), cur.push(s[0]));
    }
}

/// The segments of a path string are well formed.
pub proof fn lemma_segments_wf(s: Seq<char>)
    ensures
        all_segs_wf(segments(s)),
{
    lemma_split_wf(s, seq![]);
}

/// For a nonempty segment list, `join_rest` is just a slash and the join.
pub proof fn lemma_join_rest_unfold(segs: Seq<Seq<char>>)
    requires
        segs.len() > 0,
    ensures
        join_rest(segs) == seq!['/'] + join_segs(segs),
{
    assert(seq!['/'] + (segs[0] + join_rest(segs.drop_first())) =~= seq!['/'] + segs[0]
        + join_rest(segs.drop_first()));
}

/// Splitting the joined form of well-formed segments gives them back, and the
/// joined form is relative.
pub proof fn lemma_join_inverse(segs: Seq<Seq<char>>)
    requires
        all_segs_wf(segs),
    ensures
        segments(join_segs(segs)) == segs,
        !is_abs(join_segs(segs)),
        segs.len() > 0 ==> join_segs(segs).len() > 0,
    decreases segs.len(),
{
    if segs.len() == 0 {
        assert(segments(join_segs(segs)) =~~= segs);
    } else {
        assert(seg_wf(segs[0]));
        let rest = segs.drop_first();
        if rest.len() == 0 {
            assert(join_segs(segs) =~= segs[0]);
            lemma_split_absorb(segs[0], seq![], seq![]);
            assert(segs[0] + Seq::<char>::empty() =~= segs[0]);
            assert(Seq::<char>::empty() + segs[0] =~= segs[0]);
            assert(split_from(Seq::<char>::empty(), segs[0]) =~= seq![segs[0]]);
            assert(segments(join_segs(segs)) =~~= segs);
            assert(join_segs(segs)[0] == segs[0][0]);
        } else {
            lemma_join_rest_unfold(rest);
            let tail_str = join_segs(rest);
            assert(join_segs(segs) == segs[0] + (seq!['/'] + tail_str));
            lemma_split_absorb(segs[0], seq!['/'] + tail_str, seq![]);
            assert(Seq::<char>::empty() + segs[0] =~= segs[0]);
            assert((seq!['/'] + tail_str)[0] == '/');
            assert((seq!['/'] + tail_str).drop_first() =~= tail_str);
            assert(all_segs_wf(rest)) by {
                assert(forall|i: int| 0 <= i < rest.len() ==> rest[i] == segs[i + 1]);
            }
            lemma_join_inverse(rest);
            assert(split_from(seq!['/'] + tail_str, segs[0]) == seq![segs[0]] + segments(tail_str));
            assert(segments(join_segs(segs)) =~~= segs);
            assert(join_segs(segs)[0] == segs[0][0]);
        }
    }
}

/// Cleaning a sequence free of `..` appends it to the stack unchanged.
pub proof fn lemma_clean_normals(absolute: bool, stack: Seq<Seq<char>>, segs: Seq<Seq<char>>)
    requires
        !has_dotdot(segs),
    ensures
        clean_from(absolute, stack, segs) == stack + segs,
    decreases segs.len(),
{
    if segs.len() == 0 {
        assert(stack + segs =~= stack);
    } else {
        assert(!is_dotdot(segs[0]));
        assert(!has_dotdot(segs.drop_first())) by {
            assert(forall|i: int|
                0 <= i < segs.drop_first().len() ==> segs.drop_first()[i] == segs[i + 1]);
        }
        lemma_clean_normals(absolute, stack.push(segs[0]), segs.drop_first());
        assert(stack.push(segs[0]) + segs.drop_first() =~= stack + segs);
    }
}

/// Cleaning distributes over concatenation of the input.
pub proof fn lemma_clean_append(
    absolute: bool,
    stack: Seq<Seq<char>>,
    a: Seq<Seq<char>>,
    b: Seq<Seq<char>>,
)
    ensures
        clean_from(absolute, stack, a + b) == clean_from(
            absolute,
            clean_from(absolute, stack, a),
            b,
        ),
    decreases a.len(),
{
    if a.len() == 0 {
        assert(a + b =~= b);
    } else {
        assert((a + b)[0] == a[0]);
        assert((a + b).drop_first() =~= a.drop_first() + b);
        lemma_clean_append(absolute, clean_step(absolute, stack, a[0]), a.drop_first(), b);
    }
}

/// On an absolute path, a run of `..` segments pops that many entries off a
/// stack free of `..`, stopping at the root.
pub proof fn lemma_clean_pops(stack: Seq<Seq<char>>, ds: Seq<Seq<char>>)
    requires
        !has_dotdot(stack),
        forall|i: int| 0 <= i < ds.len() ==> is_dotdot(#[trigger] ds[i]),
    ensures
        clean_from(true, stack, ds) == (if ds.len() <= stack.len() {
            stack.take(stack.len() - ds.len())
        } else {
            Seq::<Seq<char>>::empty()
        }),
    decreases ds.len(),
{
    if ds.len() == 0 {
        assert(stack.take(stack.len() as int) =~= stack);
    } else {
        assert(is_dotdot(ds[0]));
        assert(!is_dotdot(ds[0]) == false);
        let popped = clean_step(true, stack, ds[0]);
        assert(forall|i: int|
            0 <= i < ds.drop_first().len() ==> is_dotdot(#[trigger] ds.drop_first()[i]));
        if stack.len() > 0 {
            assert(popped =~= stack.take(stack.len() - 1));
            assert(!has_dotdot(popped)) by {
                if has_dotdot(popped) {
                    let w = choose|i: int|
                        0 <= i < popped.len() && is_dotdot(#[trigger] popped[i]);
                    assert(stack[w] == popped[w]);
                }
            }
            lemma_clean_pops(popped, ds.drop_first());
            if ds.len() <= stack.len() {
                assert(popped.take(popped.len() - ds.drop_first().len()) =~= stack.take(
                    stack.len() - ds.len(),
                ));
            }
        } else {
            assert(popped =~= stack);
            lemma_clean_pops(popped, ds.drop_first());
        }
    }
}

/// `..` segments only at the front.
pub open spec fn dd_shape(segs: Seq<Seq<char>>) -> bool {
    forall|i: int, j: int|
        0 <= i < j < segs.len() && is_dotdot(#[trigger] segs[j]) ==> is_dotdot(#[trigger] segs[i])
}

/// The number of leading `..` segments.
pub open spec fn dd_prefix_len(segs: Seq<Seq<char>>) -> int
    decreases segs.len(),
{
    if segs.len() > 0 && is_dotdot(segs[0]) {
        1 + dd_prefix_len(segs.drop_first())
    } else {
        0
    }
}

/// In a front-shaped sequence, exactly the first `dd_prefix_len` segments
/// are `..`.
pub proof fn lemma_dd_prefix(segs: Seq<Seq<char>>)
    requires
        dd_shape(segs),
    ensures
        0 <= dd_prefix_len(segs) <= segs.len(),
        forall|i: int| 0 <= i < dd_prefix_len(segs) ==> is_dotdot(#[trigger] segs[i]),
        forall|i: int|
            dd_prefix_len(segs) <= i < segs.len() ==> !is_dotdot(#[trigger] segs[i]),
    decreases segs.len(),
{
    if segs.len() > 0 {
        assert(dd_shape(segs.drop_first())) by {
            assert(forall|i: int|
                0 <= i < segs.drop_first().len() ==> segs.drop_first()[i] == segs[i + 1]);
        }
        lemma_dd_prefix(segs.drop_first());
        if is_dotdot(segs[0]) {
            assert forall|i: int| 0 <= i < dd_prefix_len(segs) implies is_dotdot(
                #[trigger] segs[i],
            ) by {
                if i > 0 {
                    assert(segs.drop_first()[i - 1] == segs[i]);
                }
            }
            assert forall|i: int|
                dd_prefix_len(segs) <= i < segs.len() implies !is_dotdot(#[trigger] segs[i]) by {
                assert(segs.drop_first()[i - 1] == segs[i]);
            }
        } else {
            assert forall|i: int| 0 <= i < segs.len() implies !is_dotdot(#[trigger] segs[i]) by {
                if i > 0 && is_dotdot(segs[i]) {
                    assert(is_dotdot(segs[0]));
                }
            }
        }
    }
}

/// Appending one segment to the input applies one cleaning step to the
/// result.
pub proof fn lemma_clean_snoc(
    absolute: bool,
    stack: Seq<Seq<char>>,
    a: Seq<Seq<char>>,
    z: Seq<char>,
)
    ensures
        clean_from(absolute, stack, a.push(z)) == clean_step(
            absolute,
            clean_from(absolute, stack, a),
            z,
        ),
{
    lemma_clean_append(absolute, stack, a, seq![z]);
    assert(a + seq![z] =~~= a.push(z));
    let d = clean_from(absolute, stack, a);
    assert(seq![z].len() == 1);
    assert(seq![z][0] == z);
    assert(seq![z].drop_first() =~~= Seq::<Seq<char>>::empty());
    assert(clean_from(absolute, d, seq![z]) == clean_from(
        absolute,
        clean_step(absolute, d, z),
        seq![z].drop_first(),
    ));
}

/// Relative cleaning leaves `..` segments only at the front.
pub proof fn lemma_clean_rel_shape(segs: Seq<Seq<char>>)
    ensures
        dd_shape(clean_segs(false, segs)),
    decreases segs.len(),
{
    if segs.len() > 0 {
        let a = segs.drop_last();
        let z = segs.last();
        lemma_clean_rel_shape(a);
        lemma_clean_snoc(false, seq![], a, z);
        assert(a.push(z) =~~= segs);
        let d = clean_segs(false, a);
        assert(clean_segs(false, segs) == clean_step(false, d, z));
        if is_dotdot(z) {
            if d.len() > 0 && !is_dotdot(d.last()) {
                let out = d.drop_last();
                assert(dd_shape(out)) by {
                    assert(forall|i: int| 0 <= i < out.len() ==> out[i] == d[i]);
                }
            } else {
                assert(forall|i: int| 0 <= i < d.len() ==> is_dotdot(#[trigger] d[i])) by {
                    if d.len() > 0 {
                        assert(is_dotdot(d[d.len() - 1]));
                    }
                }
                let out = d.push(z);
                assert(dd_shape(out)) by {
                    assert(forall|i: int|
                        0 <= i < out.len() ==> is_dotdot(#[trigger] out[i]));
                }
            }
        } else {
            let out = d.push(z);
            assert(dd_shape(out)) by {
                assert(forall|i: int, j: int|
                    0 <= i < j < out.len() && is_dotdot(#[trigger] out[j]) ==> is_dotdot(
                        #[trigger] out[i],
                    )) by {
                    assert(forall|i: int| 0 <= i < d.len() ==> out[i] == d[i]);
                    assert(!is_dotdot(out[out.len() - 1]));
                }
            }
        }
    }
}

/// Cleaning a path against an absolute, `..`-free stack acts like cleaning
/// the path alone first: the surviving `..` segments then pop stack entries.
pub proof fn lemma_clean_action(st: Seq<Seq<char>>, segs: Seq<Seq<char>>)
    requires
        !has_dotdot(st),
    ensures
        clean_from(true, st, segs) == clean_from(true, st, clean_segs(false, segs)),
    decreases segs.len(),
{
    if segs.len() == 0 {
        assert(clean_segs(false, segs) =~~= Seq::<Seq<char>>::empty());
    } else {
        let a = segs.drop_last();
        let z = segs.last();
        lemma_clean_action(st, a);
        lemma_clean_snoc(true, st, a, z);
        lemma_clean_snoc(false, seq![], a, z);
        assert(a.push(z) =~~= segs);
        let d = clean_segs(false, a);
        assert(clean_segs(false, segs) == clean_step(false, d, z));
        assert(clean_from(true, st, segs) == clean_step(true, clean_from(true, st, d), z));
        lemma_clean_rel_shape(a);
        lemma_dd_prefix(d);
        let k = dd_prefix_len(d);
        let n = st.len() as int;
        let t = d.skip(k);
        assert(d =~~= d.take(k) + t);
        lemma_clean_append(true, st, d.take(k), t);
        assert(forall|i: int| 0 <= i < d.take(k).len() ==> is_dotdot(#[trigger] d.take(k)[i]));
        lemma_clean_pops(st, d.take(k));
        let p = if k <= n {
            st.take(n - k)
        } else {
            Seq::<Seq<char>>::empty()
        };
        assert(clean_from(true, st, d.take(k)) == p);
        assert(!has_dotdot(t)) by {
            if has_dotdot(t) {
                let w = choose|i: int| 0 <= i < t.len() && is_dotdot(#[trigger] t[i]);
                assert(t[w] == d[w + k]);
            }
        }
        lemma_clean_normals(true, p, t);
        assert(clean_from(true, st, d) == p + t);
        assert(!has_dotdot(p)) by {
            if has_dotdot(p) {
                let w = choose|i: int| 0 <= i < p.len() && is_dotdot(#[trigger] p[i]);
                assert(p[w] == st[w]);
            }
        }
        if !is_dotdot(z) {
            assert(clean_step(false, d, z) == d.push(z));
            assert(d.push(z) =~~= d.take(k) + t.push(z));
            lemma_clean_append(true, st, d.take(k), t.push(z));
            assert(!has_dotdot(t.push(z))) by {
                if has_dotdot(t.push(z)) {
                    let w = choose|i: int|
                        0 <= i < t.push(z).len() && is_dotdot(#[trigger] t.push(z)[i]);
                    if w < t.len() {
                        assert(t.push(z)[w] == t[w]);
                    }
                }
            }
            lemma_clean_normals(true, p, t.push(z));
            assert(clean_from(true, st, clean_step(false, d, z)) =~~= p + t.push(z));
            assert(clean_step(true, p + t, z) =~~= p + t.push(z));
        } else {
            if t.len() > 0 {
                assert(d.last() == t.last());
                assert(!is_dotdot(d.last()));
                assert(clean_step(false, d, z) == d.drop_last());
                assert(d.drop_last() =~~= d.take(k) + t.drop_last());
                lemma_clean_append(true, st, d.take(k), t.drop_last());
                assert(!has_dotdot(t.drop_last())) by {
                    if has_dotdot(t.drop_last()) {
                        let w = choose|i: int|
                            0 <= i < t.drop_last().len() && is_dotdot(
                                #[trigger] t.drop_last()[i],
                            );
                        assert(t.drop_last()[w] == t[w]);
                    }
                }
                lemma_clean_normals(true, p, t.drop_last());
                assert(clean_from(true, st, clean_step(false, d, z)) =~~= p + t.drop_last());
                assert((p + t).len() > 0);
                assert(clean_step(true, p + t, z) =~~= (p + t).drop_last());
                assert((p + t).drop_last() =~~= p + t.drop_last());
            } else {
                assert(d =~~= d.take(k));
                let grown = clean_step(false, d, z);
                assert(forall|i: int| 0 <= i < grown.len() ==> is_dotdot(#[trigger] grown[i]))
                    by {
                    if d.len() > 0 {
                        assert(is_dotdot(d[d.len() - 1]));
                        assert(grown == d.push(z));
                        assert(forall|i: int| 0 <= i < d.len() ==> grown[i] == d[i]);
                    } else {
                        assert(grown == d.push(z));
                    }
                }
                assert(grown.len() == k + 1);
                lemma_clean_pops(st, grown);
                assert(p + t =~~= p);
                if k < n {
                    assert(clean_step(true, p, z) =~~= p.drop_last());
                    assert(p.drop_last() =~~= st.take(n - k - 1));
                } else {
                    assert(p.len() == 0);
                    assert(clean_step(true, p, z) =~~= p);
                    assert(clean_from(true, st, grown) =~~= Seq::<Seq<char>>::empty());
                }
            }
        }
    }
}

/// The deep view of a character vector is its ordinary view.
pub broadcast proof fn lemma_chars_deep_view(v: Vec<char>)
    ensures
        #[trigger] v.deep_view() == v@,
{
    assert(v.deep_view() =~= v@);
}

/// Collect the characters of a string slice.
pub fn chars_of(s: &str) -> (v: Vec<char>)
    ensures
        v@ == s@,
{
    let n = s.unicode_len();
    let mut v: Vec<char> = Vec::new();
    let mut i: usize = 0;
    while i < n
        invariant
            n == s@.len(),
            i <= n,
            v@ == s@.subrange(0, i as int),
        decreases n - i,
    {
        v.push(s.get_char(i));
        i += 1;
    }
    proof {
        assert(v@ =~= s@);
    }
    v
}

/// Whether the character sequence in `v` names an absolute path.
pub fn vec_is_abs(v: &Vec<char>) -> (b: bool)
    ensures
        b == is_abs(v@),
{
    v.len() > 0 && v[0] == '/'
}

fn seg_is_dot(seg: &Vec<char>) -> (b: bool)
    ensures
        b == (seg@ == seq!['.']),
{
    let r = seg.len() == 1 && seg[0] == '.';
    proof {
        if r {
            assert(seg@ =~= seq!['.']);
        } else {
            if seg@ == seq!['.'] {
                assert(seg@.len() == 1 && seg@[0] == '.');
            }
        }
    }
    r
}

/// Whether `seg` is the `..` segment.
pub fn seg_is_dotdot(seg: &Vec<char>) -> (b: bool)
    ensures
        b == is_dotdot(seg@),
{
    let r = seg.len() == 2 && seg[0] == '.' && seg[1] == '.';
    proof {
        if r {
            assert(seg@ =~= seq!['.', '.']);
        } else {
            if is_dotdot(seg@) {
                assert(seg@.len() == 2 && seg@[0] == '.' && seg@[1] == '.');
            }
        }
    }
    r
}

/// Split a path's characters into its meaningful segments.
#[verifier::loop_isolation(false)]
pub fn split_segments(v: &Vec<char>) -> (segs: Vec<Vec<char>>)
    ensures
        segs.deep_view() == segments(v@),
{
    broadcast use lemma_chars_deep_view;

    let n = v.len();
    let mut segs: Vec<Vec<char>> = Vec::new();
    let mut cur: Vec<char> = Vec::new();
    let mut i: usize = 0;
    proof {
        assert(v@.skip(0) =~= v@);
        assert(segs.deep_view() =~= Seq::<Seq<char>>::empty());
        assert(Seq::<Seq<char>>::empty() + split_from(v@, cur@) =~= split_from(v@, cur@));
    }
    while i < n
        invariant
            n == v@.len(),
            i <= n,
            segments(v@) == segs.deep_view() + split_from(v@.skip(i as int), cur@),
        decreases n - i,
    {
        let ghost pre_segs = segs.deep_view();
        let ghost pre_cur = cur@;
        proof {
            assert(v@.skip(i as int).len() == n - i);
            assert(v@.skip(i as int)[0] == v@[i as int]);
            assert(v@.skip(i as int).drop_first() =~= v@.skip(i + 1));
        }
        if v[i] == '/' {
            let keep = cur.len() > 0 && !seg_is_dot(&cur);
            if keep {
                segs.push(cur);
            }
            cur = Vec::new();
            proof {
                assert(keep == keep_seg(pre_cur));
                if keep {
                    assert(segs.deep_view() =~= pre_segs.push(pre_cur));
                    assert(pre_segs + split_from(v@.skip(i as int), pre_cur) =~= segs.deep_view()
                        + split_from(v@.skip(i + 1), Seq::<char>::empty()));
                } else {
                    assert(pre_segs + split_from(v@.skip(i as int), pre_cur) =~= segs.deep_view()
                        + split_from(v@.skip(i + 1), Seq::<char>::empty()));
                }
            }
        } else {
            cur.push(v[i]);
        }
        i += 1;
    }
    let keep = cur.len() > 0 && !seg_is_dot(&cur);
    let ghost pre_segs = segs.deep_view();
    let ghost pre_cur = cur@;
    if keep {
        segs.push(cur);
    }
    proof {
        assert(v@.skip(n as int).len() == 0);
        if keep {
            assert(segs.deep_view() =~= pre_segs.push(pre_cur));
            assert(pre_segs + split_from(v@.skip(n as int), pre_cur) =~= segs.deep_view());
        } else {
            assert(pre_segs + split_from(v@.skip(n as int), pre_cur) =~= segs.deep_view());
        }
    }
    segs
}

/// Clean a segment sequence.
#[verifier::loop_isolation(false)]
pub fn clean_exec(absolute: bool, segs: &Vec<Vec<char>>) -> (out: Vec<Vec<char>>)
    ensures
        out.deep_view() == clean_segs(absolute, segs.deep_view()),
{
    broadcast use lemma_chars_deep_view;

    let n = segs.len();
    let mut stack: Vec<Vec<char>> = Vec::new();
    let mut i: usize = 0;
    proof {
        assert(stack.deep_view() =~= Seq::<Seq<char>>::empty());
        assert(segs.deep_view().skip(0) =~= segs.deep_view());
    }
    while i < n
        invariant
            n == segs.deep_view().len(),
            n == segs@.len(),
            i <= n,
            clean_segs(absolute, segs.deep_view()) == clean_from(
                absolute,
                stack.deep_view(),
                segs.deep_view().skip(i as int),
            ),
        decreases n - i,
    {
        let ghost pre_stack = stack.deep_view();
        let ghost rest = segs.deep_view().skip(i as int);
        proof {
            assert(rest.len() == n - i);
            assert(rest[0] == segs.deep_view()[i as int]);
            assert(rest.drop_first() =~= segs.deep_view().skip(i + 1));
        }
        let seg = &segs[i];
        if seg_is_dotdot(seg) {
            if absolute {
                if stack.len() > 0 {
                    stack.pop();
                    proof {
                        assert(stack.deep_view() =~= pre_stack.drop_last());
                    }
                }
            } else {
                let do_pop = stack.len() > 0 && !seg_is_dotdot(&stack[stack.len() - 1]);
                if do_pop {
                    stack.pop();
                    proof {
                        assert(stack.deep_view() =~= pre_stack.drop_last());
                    }
                } else {
                    let mut dd: Vec<char> = Vec::new();
                    dd.push('.');
                    dd.push('.');
                    proof {
                        assert(dd@ =~= seq!['.', '.']);
                    }
                    stack.push(dd);
                    proof {
                        assert(stack.deep_view() =~= pre_stack.push(seq!['.', '.']));
                        assert(clean_step(absolute, pre_stack, rest[0]) =~= stack.deep_view());
                    }
                }
            }
        } else {
            let mut copy: Vec<char> = Vec::new();
            let m = seg.len();
            let mut j: usize = 0;
            while j < m
                invariant
                    m == seg@.len(),
                    j <= m,
                    copy@ == seg@.subrange(0, j as int),
                decreases m - j,
            {
                copy.push(seg[j]);
                j += 1;
            }
            proof {
                assert(copy@ =~= seg@);
            }
            stack.push(copy);
            proof {
                assert(stack.deep_view() =~= pre_stack.push(rest[0]));
            }
        }
        proof {
            assert(stack.deep_view() == clean_step(absolute, pre_stack, rest[0]));
        }
        i += 1;
    }
    proof {
        assert(segs.deep_view().skip(n as int).len() == 0);
    }
    stack
}

/// Whether any segment is `..`.
#[verifier::loop_isolation(false)]
pub fn any_dotdot(segs: &Vec<Vec<char>>) -> (b: bool)
    ensures
        b == has_dotdot(segs.deep_view()),
{
    broadcast use lemma_chars_deep_view;

    let n = segs.len();
    let mut i: usize = 0;
    while i < n
        invariant
            n == segs@.len(),
            i <= n,
            forall|k: int| 0 <= k < i ==> !is_dotdot(#[trigger] segs.deep_view()[k]),
        decreases n - i,
    {
        if seg_is_dotdot(&segs[i]) {
            proof {
                assert(is_dotdot(segs.deep_view()[i as int]));
            }
            return true;
        }
        i += 1;
    }
    false
}

fn seg_eq(a: &Vec<char>, b: &Vec<char>) -> (r: bool)
    ensures
        r == (a@ == b@),
{
    if a.len() != b.len() {
        proof {
            if a@ == b@ {
                assert(a@.len() == b@.len());
            }
        }
        return false;
    }
    let n = a.len();
    let mut i: usize = 0;
    while i < n
        invariant
            n == a@.len(),
            n == b@.len(),
            i <= n,
            forall|k: int| 0 <= k < i ==> a@[k] == b@[k],
        decreases n - i,
    {
        if a[i] != b[i] {
            return false;
        }
        i += 1;
    }
    proof {
        assert(a@ =~= b@);
    }
    true
}

/// Component-wise prefix test.
#[verifier::loop_isolation(false)]
pub fn is_prefix_exec(pre: &Vec<Vec<char>>, full: &Vec<Vec<char>>) -> (r: bool)
    ensures
        r == is_seg_prefix(pre.deep_view(), full.deep_view()),
{
    broadcast use lemma_chars_deep_view;

    if pre.len() > full.len() {
        return false;
    }
    let n = pre.len();
    let mut i: usize = 0;
    while i < n
        invariant
            n == pre@.len(),
            n <= full@.len(),
            i <= n,
            forall|k: int| 0 <= k < i ==> full.deep_view()[k] == pre.deep_view()[k],
        decreases n - i,
    {
        if !seg_eq(&full[i], &pre[i]) {
            proof {
                if is_seg_prefix(pre.deep_view(), full.deep_view()) {
                    assert(full.deep_view().subrange(0, n as int)[i as int] == pre.deep_view()[i as int]);
                }
            }
            return false;
        }
        i += 1;
    }
    proof {
        assert(full.deep_view().subrange(0, n as int) =~= pre.deep_view());
    }
    true
}

/// The segments from `from` onward.
#[verifier::loop_isolation(false)]
pub fn tail_segments(segs: &Vec<Vec<char>>, from: usize) -> (out: Vec<Vec<char>>)
    requires
        from <= segs@.len(),
    ensures
        out.deep_view() == segs.deep_view().skip(from as int),
{
    broadcast use lemma_chars_deep_view;

    let n = segs.len();
    let mut out: Vec<Vec<char>> = Vec::new();
    let mut i: usize = from;
    while i < n
        invariant
            n == segs@.len(),
            from <= i <= n,
            out.deep_view() =~= segs.deep_view().subrange(from as int, i as int),
        decreases n - i,
    {
        let seg = &segs[i];
        let mut copy: Vec<char> = Vec::new();
        let m = seg.len();
        let mut j: usize = 0;
        while j < m
            invariant
                m == seg@.len(),
                j <= m,
                copy@ == seg@.subrange(0, j as int),
            decreases m - j,
        {
            copy.push(seg[j]);
            j += 1;
        }
        proof {
            assert(copy@ =~= seg@);
        }
        out.push(copy);
        proof {
            assert(out.deep_view() =~= segs.deep_view().subrange(from as int, i + 1));
        }
        i += 1;
    }
    proof {
        assert(out.deep_view() =~= segs.deep_view().skip(from as int));
    }
    out
}

/// Append the characters of `v` to `s`.
pub fn push_chars(s: &mut String, v: &Vec<char>)
    ensures
        final(s)@ == old(s)@ + v@,
{
    let n = v.len();
    let mut i: usize = 0;
    while i < n
        invariant
            n == v@.len(),
            i <= n,
            s@ == old(s)@ + v@.subrange(0, i as int),
        decreases n - i,
    {
        crate::outside::string_push(s, v[i]);
        i += 1;
    }
    proof {
        assert(old(s)@ + v@.subrange(0, n as int) =~= old(s)@ + v@);
    }
}

/// Join segments into a `/`-separated string.
#[verifier::loop_isolation(false)]
pub fn join_string(segs: &Vec<Vec<char>>) -> (s: String)
    ensures
        s@ == join_segs(segs.deep_view()),
{
    broadcast use lemma_chars_deep_view;

    let mut s = String::new();
    if segs.len() == 0 {
        return s;
    }
    push_chars(&mut s, &segs[0]);
    let n = segs.len();
    let mut i: usize = 1;
    while i < n
        invariant
            n == segs@.len(),
            1 <= i <= n,
            join_segs(segs.deep_view()) == s@ + join_rest(segs.deep_view().skip(i as int)),
        decreases n - i,
    {
        let ghost rest = segs.deep_view().skip(i as int);
        proof {
            assert(rest.len() == n - i);
            assert(rest[0] == segs.deep_view()[i as int]);
            assert(rest.drop_first() =~= segs.deep_view().skip(i + 1));
        }
        crate::outside::string_push(&mut s, '/');
        push_chars(&mut s, &segs[i]);
        i += 1;
    }
    proof {
        assert(segs.deep_view().skip(n as int).len() == 0);
        assert(s@ + join_rest(segs.deep_view().skip(n as int)) =~= s@);
    }
    s
}

/// The string form of a cleaned path.
pub fn string_of_path(absolute: bool, segs: &Vec<Vec<char>>) -> (s: String)
    ensures
        s@ == path_string(absolute, segs.deep_view()),
{
    broadcast use lemma_chars_deep_view;

    if absolute {
        let mut s = String::new();
        crate::outside::string_push(&mut s, '/');
        let joined = join_string(segs);
        s.append(joined.as_str());
        proof {
            assert(s@ =~= seq!['/'] + join_segs(segs.deep_view()));
        }
        s
    } else if segs.len() == 0 {
        let mut s = String::new();
        crate::outside::string_push(&mut s, '.');
        proof {
            assert(s@ =~= seq!['.']);
        }
        s
    } else {
        join_string(segs)
    }
}

} // verus!
