//! Tokenizers driven by a trie: forward-maximum match and all-match.
//!
//! Both scanners pull tokens one at a time from a borrowed trie and a
//! borrowed text. Their contracts are stated over the trie's dictionary
//! map alone, so any two tries storing the same entries drive them to the
//! same token stream.

use vstd::prelude::*;

verus! {

use crate::Status;
use crate::Trie;
use vstd::utf8::encode_scalar;
use vstd::utf8::encode_utf8;

/// A token: the matched slice of the scanned text, its byte offsets
/// `(start, end)` in that text, and the value stored for the matched key.
pub type Token<'a, T> = (&'a str, (usize, usize), Option<&'a T>);

/// The byte length of one character's UTF-8 encoding.
pub open spec fn utf8_width(c: char) -> int {
    encode_scalar(c as u32).len() as int
}

/// The byte offset of character position `i` in `text`: how many bytes
/// the UTF-8 encoding of the characters before it takes.
pub open spec fn byte_index(text: Seq<char>, i: int) -> int
    decreases i,
{
    if i <= 0 {
        0
    } else {
        byte_index(text, i - 1) + utf8_width(text[i - 1])
    }
}

/// Encoding one more character appends its bytes.
proof fn lemma_encode_push(a: Seq<char>, c: char)
    ensures
        encode_utf8(a.push(c)) == encode_utf8(a) + encode_scalar(c as u32),
    decreases a.len(),
{
    if a.len() == 0 {
        assert(a.push(c).drop_first() =~= a);
        assert(encode_utf8(a.push(c)) =~= encode_utf8(a) + encode_scalar(c as u32));
    } else {
        assert(a.push(c)[0] == a[0]);
        assert(a.push(c).drop_first() =~= a.drop_first().push(c));
        lemma_encode_push(a.drop_first(), c);
        assert(encode_utf8(a.push(c)) =~= encode_utf8(a) + encode_scalar(c as u32));
    }
}

/// `byte_index` is the byte offset in the text's UTF-8 encoding: position
/// `i` sits right past the bytes of the first `i` characters.
pub proof fn lemma_byte_index_is_encoded_len(text: Seq<char>, i: int)
    requires
        0 <= i <= text.len(),
    ensures
        byte_index(text, i) == encode_utf8(text.take(i)).len(),
    decreases i,
{
    if i == 0 {
        assert(text.take(0) =~= Seq::<char>::empty());
    } else {
        lemma_byte_index_is_encoded_len(text, i - 1);
        assert(text.take(i) =~= text.take(i - 1).push(text[i - 1]));
        lemma_encode_push(text.take(i - 1), text[i - 1]);
    }
}

/// Byte offsets grow with the character position.
proof fn lemma_byte_index_mono(text: Seq<char>, i: int, j: int)
    requires
        i <= j,
    ensures
        byte_index(text, i) <= byte_index(text, j),
    decreases j - i,
{
    if i < j {
        lemma_byte_index_mono(text, i, j - 1);
        assert(encode_scalar(text[j - 1] as u32).len() >= 0);
    }
}

/// The byte width of one character's UTF-8 encoding.
fn char_width(c: char) -> (w: usize)
    ensures
        w as int == utf8_width(c),
{
    let u = c as u32;
    if u < 0x80 {
        1
    } else if u < 0x800 {
        2
    } else if u < 0x10000 {
        3
    } else {
        4
    }
}

/// The byte offset of character position `i` of `text`, computed by
/// summing the widths of the characters before it.
fn byte_offset_of(text: &str, i: usize) -> (r: usize)
    requires
        i <= text@.len(),
    ensures
        r as int == byte_index(text@, i as int),
{
    let total = text.as_bytes().len();
    proof {
        assert(text@.take(text@.len() as int) =~= text@);
        lemma_byte_index_is_encoded_len(text@, text@.len() as int);
    }
    let mut j: usize = 0;
    let mut acc: usize = 0;
    while j < i
        invariant
            j <= i <= text@.len(),
            acc as int == byte_index(text@, j as int),
            byte_index(text@, text@.len() as int) == total as int,
        decreases i - j,
    {
        let c = text.get_char(j);
        let w = char_width(c);
        proof {
            lemma_byte_index_mono(text@, j as int + 1, text@.len() as int);
        }
        acc = acc + w;
        j = j + 1;
    }
    acc
}

/// `[s, e)` delimits a dictionary entry of `dict` inside `text`.
pub open spec fn match_at<T>(dict: Map<Seq<char>, T>, text: Seq<char>, s: int, e: int) -> bool {
    0 <= s < e <= text.len() && dict.contains_key(text.subrange(s, e))
}

/// The largest end `e <= hi` with a match `[s, e)`, or `s` when no match
/// starts at `s` and ends by `hi`.
pub open spec fn best_end_up_to<T>(
    dict: Map<Seq<char>, T>,
    text: Seq<char>,
    s: int,
    hi: int,
) -> int
    decreases hi - s,
{
    if hi <= s {
        s
    } else if match_at(dict, text, s, hi) {
        hi
    } else {
        best_end_up_to(dict, text, s, hi - 1)
    }
}

/// The end of the longest match starting at `s`, or `s` when none starts
/// there.
pub open spec fn best_end<T>(dict: Map<Seq<char>, T>, text: Seq<char>, s: int) -> int {
    best_end_up_to(dict, text, s, text.len() as int)
}

/// The forward-maximum token from cursor `s`: the span of the longest
/// match at the first position, at or after `s`, where any match starts.
/// Positions no entry covers are passed over without a token.
pub open spec fn max_next<T>(dict: Map<Seq<char>, T>, text: Seq<char>, s: int) -> Option<
    (int, int),
>
    decreases text.len() - s,
{
    if s >= text.len() {
        None
    } else if best_end(dict, text, s) > s {
        Some((s, best_end(dict, text, s)))
    } else {
        max_next(dict, text, s + 1)
    }
}

/// The first end strictly past `e` that closes a match starting at `s`.
pub open spec fn first_end_after<T>(
    dict: Map<Seq<char>, T>,
    text: Seq<char>,
    s: int,
    e: int,
) -> Option<int>
    decreases text.len() - e,
{
    if e >= text.len() {
        None
    } else if match_at(dict, text, s, e + 1) {
        Some(e + 1)
    } else {
        first_end_after(dict, text, s, e + 1)
    }
}

/// The next all-match token from resume state `(s, e)`: the shortest
/// match at start `s` ending past `e`, else the first match at a later
/// start — every match of the text comes out once, ordered by start and
/// then by end.
pub open spec fn all_next<T>(dict: Map<Seq<char>, T>, text: Seq<char>, s: int, e: int) -> Option<
    (int, int),
>
    decreases text.len() - s,
{
    if s >= text.len() {
        None
    } else {
        match first_end_after(dict, text, s, e) {
            Some(e2) => Some((s, e2)),
            None => all_next(dict, text, s + 1, s + 1),
        }
    }
}

/// A match at `b` with nothing longer pins the longest-match end.
proof fn lemma_best_end_up_to_is<T>(
    dict: Map<Seq<char>, T>,
    text: Seq<char>,
    s: int,
    b: int,
    hi: int,
)
    requires
        s < b <= hi <= text.len(),
        match_at(dict, text, s, b),
        forall|e: int| b < e <= hi ==> !match_at(dict, text, s, e),
    ensures
        best_end_up_to(dict, text, s, hi) == b,
    decreases hi - b,
{
    if hi > b {
        lemma_best_end_up_to_is(dict, text, s, b, hi - 1);
    }
}

/// No match at all leaves the longest-match end at the sentinel.
proof fn lemma_best_end_up_to_none<T>(dict: Map<Seq<char>, T>, text: Seq<char>, s: int, hi: int)
    requires
        s <= hi,
        forall|e: int| s < e <= hi ==> !match_at(dict, text, s, e),
    ensures
        best_end_up_to(dict, text, s, hi) == s,
    decreases hi - s,
{
    if hi > s {
        lemma_best_end_up_to_none(dict, text, s, hi - 1);
    }
}

/// A match at `e2` with no earlier one past `e` pins the first end.
proof fn lemma_first_end_is<T>(dict: Map<Seq<char>, T>, text: Seq<char>, s: int, e: int, e2: int)
    requires
        e < e2 <= text.len(),
        match_at(dict, text, s, e2),
        forall|x: int| e < x < e2 ==> !match_at(dict, text, s, x),
    ensures
        first_end_after(dict, text, s, e) == Some(e2),
    decreases e2 - e,
{
    if e + 1 < e2 {
        lemma_first_end_is(dict, text, s, e + 1, e2);
    }
}

/// No match ending past `e` means no first end either.
proof fn lemma_first_end_none<T>(dict: Map<Seq<char>, T>, text: Seq<char>, s: int, e: int)
    requires
        forall|x: int| e < x <= text.len() ==> !match_at(dict, text, s, x),
    ensures
        first_end_after(dict, text, s, e) is None,
    decreases text.len() - e,
{
    if e < text.len() {
        lemma_first_end_none(dict, text, s, e + 1);
    }
}

/// One forward-maximum scan: from cursor `from`, the longest match at the
/// first position at or after it that any dictionary entry covers,
/// together with that entry's value.
fn scan_max<'a, T>(root: &'a Trie<T>, text: &'a str, from: usize) -> (r: Option<
    (usize, usize, &'a T),
>)
    requires
        root.inv(),
        from <= text@.len(),
    ensures
        match r {
            Some((s, e, v)) => max_next(root.as_map(), text@, from as int) == Some(
                (s as int, e as int),
            ) && from <= s < e <= text@.len() && root.as_map().contains_key(
                text@.subrange(s as int, e as int),
            ) && *v == root.as_map()[text@.subrange(s as int, e as int)],
            None => max_next(root.as_map(), text@, from as int) is None,
        },
{
    let ghost dict = root.as_map();
    let len = text.unicode_len();
    let mut start = from;
    loop
        invariant
            root.inv(),
            from <= start <= len,
            len == text@.len(),
            max_next(dict, text@, from as int) == max_next(dict, text@, start as int),
            dict == root.as_map(),
        decreases len - start,
    {
        if start >= len {
            return None;
        }
        let ghost anchor = start as int;
        let mut pos = start;
        let mut node = root;
        let mut best: usize = start;
        let mut best_val: Option<&'a T> = None;
        proof {
            assert(text@.subrange(anchor, anchor) =~= Seq::<char>::empty());
            root.lemma_subtrie_empty(text@.subrange(anchor, anchor));
        }
        loop
            invariant_except_break
                root.inv(),
                dict == root.as_map(),
                len == text@.len(),
                anchor == start as int,
                start <= pos <= len,
                start < len,
                root.subtrie(text@.subrange(anchor, pos as int)) == Some(*node),
                node.wf(),
                start <= best <= pos,
                best == start ==> best_val is None && (forall|e: int|
                    anchor < e <= (pos as int) ==> !match_at(dict, text@, anchor, e)),
                best > start ==> match_at(dict, text@, anchor, best as int) && (forall|e: int|
                    (best as int) < e <= (pos as int) ==> !match_at(dict, text@, anchor, e)) && (
                best_val matches Some(v) && *v == dict[text@.subrange(anchor, best as int)]),
            ensures
                len == text@.len(),
                anchor == start as int,
                start <= best <= len,
                best == start ==> (forall|e: int|
                    anchor < e <= (len as int) ==> !match_at(dict, text@, anchor, e)),
                best > start ==> match_at(dict, text@, anchor, best as int) && (forall|e: int|
                    (best as int) < e <= (len as int) ==> !match_at(dict, text@, anchor, e)) && (
                best_val matches Some(v) && *v == dict[text@.subrange(anchor, best as int)]),
            decreases len - pos,
        {
            if pos >= len {
                break ;
            }
            let c = text.get_char(pos);
            let ghost pre = text@.subrange(anchor, pos as int);
            match node.char_get(c) {
                Some(child) => {
                    proof {
                        assert(pre.push(c) =~= text@.subrange(anchor, pos as int + 1));
                        root.lemma_subtrie_extend(pre, c);
                        node.lemma_child_wf(c);
                        root.lemma_map_at(
                            text@.subrange(anchor, pos as int + 1),
                            root.subtrie(text@.subrange(anchor, pos as int + 1))->Some_0,
                        );
                    }
                    pos = pos + 1;
                    if child.status == Status::End {
                        best = pos;
                        best_val = child.value.as_ref();
                        node = child;
                    } else if child.status == Status::LastEnd {
                        best = pos;
                        best_val = child.value.as_ref();
                        proof {
                            assert forall|e: int|
                                (best as int) < e <= (len as int) implies !match_at(
                                dict,
                                text@,
                                anchor,
                                e,
                            ) by {
                                assert(text@.subrange(anchor, pos as int).is_prefix_of(
                                    text@.subrange(anchor, e),
                                )) by {
                                    assert(text@.subrange(anchor, e).subrange(0, pos - anchor)
                                        =~= text@.subrange(anchor, pos as int));
                                }
                                root.lemma_no_key_beyond_leaf(
                                    text@.subrange(anchor, pos as int),
                                    text@.subrange(anchor, e),
                                    *child,
                                );
                            }
                        }
                        break ;
                    } else {
                        node = child;
                    }
                },
                None => {
                    proof {
                        assert(pre.push(c) =~= text@.subrange(anchor, pos as int + 1));
                        root.lemma_subtrie_extend(pre, c);
                        assert forall|e: int|
                            (pos as int) < e <= (len as int) implies !match_at(dict, text@, anchor, e) by {
                            assert(text@.subrange(anchor, pos as int + 1).is_prefix_of(
                                text@.subrange(anchor, e),
                            )) by {
                                assert(text@.subrange(anchor, e).subrange(0, pos + 1 - anchor)
                                    =~= text@.subrange(anchor, pos as int + 1));
                            }
                            root.lemma_no_key_beyond_dead(
                                text@.subrange(anchor, pos as int + 1),
                                text@.subrange(anchor, e),
                            );
                        }
                    }
                    break ;
                },
            }
        }
        if best > start {
            proof {
                lemma_best_end_up_to_is(dict, text@, anchor, best as int, len as int);
                assert(max_next(dict, text@, anchor) == Some((anchor, best as int)));
            }
            return Some((start, best, best_val.unwrap()));
        } else {
            proof {
                lemma_best_end_up_to_none(dict, text@, anchor, len as int);
                assert(best_end(dict, text@, anchor) == anchor);
                assert(max_next(dict, text@, anchor) == max_next(dict, text@, anchor + 1));
            }
            start = start + 1;
        }
    }
}

/// One all-match scan: resuming from anchor `start` with the walk at
/// `(end, node)`, the next dictionary match in order of start and then of
/// end, with the trie node that closes it.
fn scan_all<'a, T>(
    root: &'a Trie<T>,
    node: &'a Trie<T>,
    text: &'a str,
    start: usize,
    end: usize,
) -> (r: Option<(usize, usize, &'a Trie<T>)>)
    requires
        root.inv(),
        start <= end <= text@.len(),
        root.subtrie(text@.subrange(start as int, end as int)) == Some(*node),
        node.wf(),
    ensures
        match r {
            Some((s, e, child)) => {
                &&& all_next(root.as_map(), text@, start as int, end as int) == Some(
                    (s as int, e as int),
                )
                &&& start <= s < e <= text@.len()
                &&& (s == start ==> end < e)
                &&& root.subtrie(text@.subrange(s as int, e as int)) == Some(*child)
                &&& child.wf()
                &&& !(child.status is Not)
                &&& child.value is Some
                &&& root.as_map().contains_key(text@.subrange(s as int, e as int))
                &&& root.as_map()[text@.subrange(s as int, e as int)] == child.value->Some_0
            },
            None => all_next(root.as_map(), text@, start as int, end as int) is None,
        },
{
    let ghost dict = root.as_map();
    let len = text.unicode_len();
    let mut anchor = start;
    let ghost mut base: int = end as int;
    let mut pos = end;
    let mut nd = node;
    loop
        invariant
            root.inv(),
            dict == root.as_map(),
            len == text@.len(),
            start <= anchor <= len,
            anchor as int <= base,
            base <= pos as int,
            pos <= len,
            root.subtrie(text@.subrange(anchor as int, pos as int)) == Some(*nd),
            nd.wf(),
            all_next(dict, text@, start as int, end as int) == all_next(
                dict,
                text@,
                anchor as int,
                base,
            ),
            forall|e: int| base < e <= (pos as int) ==> !match_at(dict, text@, anchor as int, e),
            anchor == start ==> base == end as int,
            anchor > start ==> base == anchor as int,
        decreases len - anchor, len - pos,
    {
        if anchor >= len {
            return None;
        }
        if pos >= len {
            proof {
                lemma_first_end_none(dict, text@, anchor as int, base);
            }
            anchor = anchor + 1;
            proof {
                base = anchor as int;
                assert(text@.subrange(anchor as int, anchor as int) =~= Seq::<char>::empty());
                root.lemma_subtrie_empty(text@.subrange(anchor as int, anchor as int));
            }
            pos = anchor;
            nd = root;
        } else {
            let c = text.get_char(pos);
            let ghost pre = text@.subrange(anchor as int, pos as int);
            match nd.char_get(c) {
                Some(child) => {
                    proof {
                        assert(pre.push(c) =~= text@.subrange(anchor as int, pos as int + 1));
                        root.lemma_subtrie_extend(pre, c);
                        nd.lemma_child_wf(c);
                        root.lemma_map_at(
                            text@.subrange(anchor as int, pos as int + 1),
                            root.subtrie(text@.subrange(anchor as int, pos as int + 1))->Some_0,
                        );
                    }
                    pos = pos + 1;
                    if child.status == Status::Not {
                        nd = child;
                    } else {
                        proof {
                            assert(match_at(dict, text@, anchor as int, pos as int));
                            lemma_first_end_is(dict, text@, anchor as int, base, pos as int);
                        }
                        return Some((anchor, pos, child));
                    }
                },
                None => {
                    proof {
                        assert(pre.push(c) =~= text@.subrange(anchor as int, pos as int + 1));
                        root.lemma_subtrie_extend(pre, c);
                        assert forall|e: int|
                            base < e <= (len as int) implies !match_at(
                            dict,
                            text@,
                            anchor as int,
                            e,
                        ) by {
                            if e > pos as int {
                                assert(text@.subrange(anchor as int, pos as int + 1).is_prefix_of(
                                    text@.subrange(anchor as int, e),
                                )) by {
                                    assert(text@.subrange(anchor as int, e).subrange(
                                        0,
                                        pos + 1 - anchor,
                                    ) =~= text@.subrange(anchor as int, pos as int + 1));
                                }
                                root.lemma_no_key_beyond_dead(
                                    text@.subrange(anchor as int, pos as int + 1),
                                    text@.subrange(anchor as int, e),
                                );
                            }
                        }
                        lemma_first_end_none(dict, text@, anchor as int, base);
                    }
                    anchor = anchor + 1;
                    proof {
                        base = anchor as int;
                        assert(text@.subrange(anchor as int, anchor as int) =~= Seq::<
                            char,
                        >::empty());
                        root.lemma_subtrie_empty(text@.subrange(anchor as int, anchor as int));
                    }
                    pos = anchor;
                    nd = root;
                },
            }
        }
    }
}

/// One all-match step: the next match from resume state `(start, end,
/// node)`, its value, and the state the scan resumes from afterwards.
/// After a match closed by a childless leaf the anchor moves on by one
/// character — nothing longer can start where it did — which leaves the
/// continuation stream unchanged.
fn step_all<'a, T>(
    root: &'a Trie<T>,
    node: &'a Trie<T>,
    text: &'a str,
    start: usize,
    end: usize,
) -> (r: (Option<(usize, usize, &'a T)>, usize, usize, &'a Trie<T>))
    requires
        root.inv(),
        start <= end <= text@.len(),
        root.subtrie(text@.subrange(start as int, end as int)) == Some(*node),
        node.wf(),
    ensures
        ({
            let (tok, s2, e2, nd2) = r;
            {
                &&& s2 <= e2 <= text@.len()
                &&& root.subtrie(text@.subrange(s2 as int, e2 as int)) == Some(*nd2)
                &&& nd2.wf()
                &&& match all_next(root.as_map(), text@, start as int, end as int) {
                    Some((s, e)) => {
                        &&& start as int <= s < e <= text@.len()
                        &&& (s == start as int ==> end < e)
                        &&& root.as_map().contains_key(text@.subrange(s, e))
                        &&& (tok matches Some(t3) && t3.0 as int == s && t3.1 as int == e
                            && *t3.2 == root.as_map()[text@.subrange(s, e)])
                        &&& all_next(root.as_map(), text@, s2 as int, e2 as int) == all_next(
                            root.as_map(),
                            text@,
                            s,
                            e,
                        )
                        &&& (s2 as int > start as int || (s2 as int == start as int && e2 as int
                            > end as int))
                    },
                    None => tok is None && s2 as int >= text@.len(),
                }
            }
        }),
{
    let ghost dict = root.as_map();
    let len = text.unicode_len();
    match scan_all(root, node, text, start, end) {
        Some((s, e, child)) => {
            let value = child.value.as_ref().unwrap();
            if child.status == Status::LastEnd {
                proof {
                    let si = s as int;
                    let ei = e as int;
                    assert forall|e2: int|
                        ei < e2 <= text@.len() implies !match_at(dict, text@, si, e2) by {
                        assert(text@.subrange(si, ei).is_prefix_of(text@.subrange(si, e2))) by {
                            assert(text@.subrange(si, e2).subrange(0, ei - si) =~= text@.subrange(
                                si,
                                ei,
                            ));
                        }
                        root.lemma_no_key_beyond_leaf(
                            text@.subrange(si, ei),
                            text@.subrange(si, e2),
                            *child,
                        );
                    }
                    lemma_first_end_none(dict, text@, si, ei);
                    assert(all_next(dict, text@, si, ei) == all_next(dict, text@, si + 1, si + 1));
                    assert(text@.subrange(si + 1, si + 1) =~= Seq::<char>::empty());
                    root.lemma_subtrie_empty(text@.subrange(si + 1, si + 1));
                }
                (Some((s, e, value)), s + 1, s + 1, root)
            } else {
                (Some((s, e, value)), s, e, child)
            }
        },
        None => {
            proof {
                assert(text@.subrange(len as int, len as int) =~= Seq::<char>::empty());
                root.lemma_subtrie_empty(text@.subrange(len as int, len as int));
            }
            (None, len, len, root)
        },
    }
}

/// Scanner producing, at each position, the longest dictionary match
/// starting there; positions covered by no entry are skipped silently.
pub struct MaxFrontTokenizer<'a, T> {
    text: &'a str,
    root: &'a Trie<T>,
    start: usize,
}

impl<'a, T> MaxFrontTokenizer<'a, T> {
    /// Well-formed scanner: its trie is a valid dictionary and its cursor
    /// has not run past the text.
    pub closed spec fn wf(self) -> bool {
        self.root.inv() && self.start <= self.text@.len()
    }

    /// The dictionary driving the scan.
    pub closed spec fn dict(self) -> Map<Seq<char>, T> {
        self.root.as_map()
    }

    /// The text being scanned.
    pub closed spec fn text_view(self) -> Seq<char> {
        self.text@
    }

    /// The character position the next scan starts from.
    pub closed spec fn cursor(self) -> int {
        self.start as int
    }

    pub fn new(trie: &'a Trie<T>, text: &'a str) -> (r: Self)
        requires
            trie.inv(),
        ensures
            r.wf(),
            r.dict() == trie.as_map(),
            r.text_view() == text@,
            r.cursor() == 0,
    {
        Self { text, root: trie, start: 0 }
    }

    /// The next forward-maximum token, if any position at or after the
    /// cursor starts a dictionary match; the cursor moves past the match,
    /// or to the end of the text when no match is left.
    pub fn next(&mut self) -> (r: Option<Token<'a, T>>)
        requires
            old(self).wf(),
        ensures
            final(self).wf(),
            final(self).dict() == old(self).dict(),
            final(self).text_view() == old(self).text_view(),
            match max_next(old(self).dict(), old(self).text_view(), old(self).cursor()) {
                Some((s, e)) => r matches Some(tok) && ({
                    &&& tok.0@ == old(self).text_view().subrange(s, e)
                    &&& tok.1.0 as int == byte_index(old(self).text_view(), s)
                    &&& tok.1.1 as int == byte_index(old(self).text_view(), e)
                    &&& tok.2 matches Some(v) && *v == old(self).dict()[old(
                        self,
                    ).text_view().subrange(s, e)]
                    &&& old(self).dict().contains_key(old(self).text_view().subrange(s, e))
                    &&& old(self).cursor() <= s < e
                    &&& final(self).cursor() == e
                }),
                None => r is None && final(self).cursor() == old(self).text_view().len(),
            },
            r is Some ==> final(self).cursor() > old(self).cursor(),
            r is None ==> final(self).cursor() >= final(self).text_view().len(),
            old(self).cursor() >= old(self).text_view().len() ==> r is None && final(self).cursor()
                == old(self).cursor(),
    {
        let len = self.text.unicode_len();
        match scan_max(self.root, self.text, self.start) {
            Some((s, e, v)) => {
                self.start = e;
                let tok = self.text.substring_char(s, e);
                let bs = byte_offset_of(self.text, s);
                let be = byte_offset_of(self.text, e);
                Some((tok, (bs, be), Some(v)))
            },
            None => {
                self.start = len;
                None
            },
        }
    }
}

/// Scanner producing every dictionary match found in the text, overlaps
/// and nested matches included, in order of start and then of end.
pub struct AllTokenizer<'a, T> {
    text: &'a str,
    root: &'a Trie<T>,
    trie: &'a Trie<T>,
    start: usize,
    end: usize,
}

impl<'a, T> AllTokenizer<'a, T> {
    /// Well-formed scanner: a valid dictionary, in-range offsets, and a
    /// walk position that is the trie node of the text span between them.
    pub closed spec fn wf(self) -> bool {
        &&& self.root.inv()
        &&& self.start <= self.end <= self.text@.len()
        &&& self.root.subtrie(self.text@.subrange(self.start as int, self.end as int)) == Some(
            *self.trie,
        )
        &&& self.trie.wf()
    }

    /// The dictionary driving the scan.
    pub closed spec fn dict(self) -> Map<Seq<char>, T> {
        self.root.as_map()
    }

    /// The text being scanned.
    pub closed spec fn text_view(self) -> Seq<char> {
        self.text@
    }

    /// The start position matches are currently anchored at.
    pub closed spec fn anchor(self) -> int {
        self.start as int
    }

    /// The position scanning resumes from: matches already produced at
    /// this anchor end at or before it.
    pub closed spec fn scan_end(self) -> int {
        self.end as int
    }

    pub fn new(trie: &'a Trie<T>, text: &'a str) -> (r: Self)
        requires
            trie.inv(),
        ensures
            r.wf(),
            r.dict() == trie.as_map(),
            r.text_view() == text@,
            r.anchor() == 0,
            r.scan_end() == 0,
    {
        proof {
            assert(text@.subrange(0, 0) =~= Seq::<char>::empty());
            trie.lemma_subtrie_empty(text@.subrange(0, 0));
        }
        Self { text, root: trie, trie, start: 0, end: 0 }
    }

    /// The next match in order of start and then of end: every dictionary
    /// entry occurring in the text is produced exactly once. The resume
    /// state the scanner is left in continues the very same stream, so
    /// the whole sequence of tokens is a function of dictionary and text
    /// alone.
    pub fn next(&mut self) -> (r: Option<Token<'a, T>>)
        requires
            old(self).wf(),
        ensures
            final(self).wf(),
            final(self).dict() == old(self).dict(),
            final(self).text_view() == old(self).text_view(),
            match all_next(
                old(self).dict(),
                old(self).text_view(),
                old(self).anchor(),
                old(self).scan_end(),
            ) {
                Some((s, e)) => r matches Some(tok) && ({
                    &&& tok.0@ == old(self).text_view().subrange(s, e)
                    &&& tok.1.0 as int == byte_index(old(self).text_view(), s)
                    &&& tok.1.1 as int == byte_index(old(self).text_view(), e)
                    &&& tok.2 matches Some(v) && *v == old(self).dict()[old(
                        self,
                    ).text_view().subrange(s, e)]
                    &&& old(self).dict().contains_key(old(self).text_view().subrange(s, e))
                    &&& old(self).anchor() <= s < e
                    &&& (s == old(self).anchor() ==> old(self).scan_end() < e)
                    &&& all_next(
                        final(self).dict(),
                        final(self).text_view(),
                        final(self).anchor(),
                        final(self).scan_end(),
                    ) == all_next(old(self).dict(), old(self).text_view(), s, e)
                    &&& (final(self).anchor() > old(self).anchor() || (final(self).anchor() == old(
                        self,
                    ).anchor() && final(self).scan_end() > old(self).scan_end()))
                }),
                None => r is None && final(self).anchor() >= final(self).text_view().len(),
            },
            old(self).anchor() >= old(self).text_view().len() ==> r is None && *final(self) == *old(
                self,
            ),
    {
        if self.start >= self.text.unicode_len() {
            return None;
        }
        let (tok, s2, e2, nd2) = step_all(self.root, self.trie, self.text, self.start, self.end);
        self.start = s2;
        self.end = e2;
        self.trie = nd2;
        match tok {
            Some((s, e, v)) => {
                let bs = byte_offset_of(self.text, s);
                let be = byte_offset_of(self.text, e);
                Some((self.text.substring_char(s, e), (bs, be), Some(v)))
            },
            None => None,
        }
    }
}

/// A tokenizer holding both policies on one state; each call scans from
/// the current anchor.
pub struct Tokenizer<'a, T> {
    text: &'a str,
    root: &'a Trie<T>,
    trie: &'a Trie<T>,
    start: usize,
    end: usize,
}

impl<'a, T> Tokenizer<'a, T> {
    /// Well-formed scanner: a valid dictionary, in-range offsets, and a
    /// walk position that is the trie node of the text span between them.
    pub closed spec fn wf(self) -> bool {
        &&& self.root.inv()
        &&& self.start <= self.end <= self.text@.len()
        &&& self.root.subtrie(self.text@.subrange(self.start as int, self.end as int)) == Some(
            *self.trie,
        )
        &&& self.trie.wf()
    }

    /// The dictionary driving the scan.
    pub closed spec fn dict(self) -> Map<Seq<char>, T> {
        self.root.as_map()
    }

    /// The text being scanned.
    pub closed spec fn text_view(self) -> Seq<char> {
        self.text@
    }

    /// The start position the next scan is anchored at.
    pub closed spec fn anchor(self) -> int {
        self.start as int
    }

    /// The position all-match scanning resumes from.
    pub closed spec fn scan_end(self) -> int {
        self.end as int
    }

    pub fn new(trie: &'a Trie<T>, text: &'a str) -> (r: Self)
        requires
            trie.inv(),
        ensures
            r.wf(),
            r.dict() == trie.as_map(),
            r.text_view() == text@,
            r.anchor() == 0,
            r.scan_end() == 0,
    {
        proof {
            assert(text@.subrange(0, 0) =~= Seq::<char>::empty());
            trie.lemma_subtrie_empty(text@.subrange(0, 0));
        }
        Self { text, root: trie, trie, start: 0, end: 0 }
    }

    /// The next forward-maximum token from the current anchor. The walk
    /// state is reset behind the produced token, so a later call of
    /// either policy scans fresh from the new anchor.
    pub fn front_max(&mut self) -> (r: Option<Token<'a, T>>)
        requires
            old(self).wf(),
        ensures
            final(self).wf(),
            final(self).dict() == old(self).dict(),
            final(self).text_view() == old(self).text_view(),
            final(self).scan_end() == final(self).anchor(),
            match max_next(old(self).dict(), old(self).text_view(), old(self).anchor()) {
                Some((s, e)) => r matches Some(tok) && ({
                    &&& tok.0@ == old(self).text_view().subrange(s, e)
                    &&& tok.1.0 as int == byte_index(old(self).text_view(), s)
                    &&& tok.1.1 as int == byte_index(old(self).text_view(), e)
                    &&& tok.2 matches Some(v) && *v == old(self).dict()[old(
                        self,
                    ).text_view().subrange(s, e)]
                    &&& old(self).dict().contains_key(old(self).text_view().subrange(s, e))
                    &&& old(self).anchor() <= s < e
                    &&& final(self).anchor() == e
                }),
                None => r is None && final(self).anchor() == old(self).text_view().len(),
            },
            r is Some ==> final(self).anchor() > old(self).anchor(),
            r is None ==> final(self).anchor() >= final(self).text_view().len(),
    {
        let len = self.text.unicode_len();
        match scan_max(self.root, self.text, self.start) {
            Some((s, e, v)) => {
                self.start = e;
                self.end = e;
                self.trie = self.root;
                proof {
                    assert(self.text@.subrange(e as int, e as int) =~= Seq::<char>::empty());
                    self.root.lemma_subtrie_empty(self.text@.subrange(e as int, e as int));
                }
                let bs = byte_offset_of(self.text, s);
                let be = byte_offset_of(self.text, e);
                Some((self.text.substring_char(s, e), (bs, be), Some(v)))
            },
            None => {
                self.start = len;
                self.end = len;
                self.trie = self.root;
                proof {
                    assert(self.text@.subrange(len as int, len as int) =~= Seq::<char>::empty());
                    self.root.lemma_subtrie_empty(self.text@.subrange(len as int, len as int));
                }
                None
            },
        }
    }

    /// The next all-match token, exactly as [`AllTokenizer::next`]
    /// produces it from the same state.
    pub fn all(&mut self) -> (r: Option<Token<'a, T>>)
        requires
            old(self).wf(),
        ensures
            final(self).wf(),
            final(self).dict() == old(self).dict(),
            final(self).text_view() == old(self).text_view(),
            match all_next(
                old(self).dict(),
                old(self).text_view(),
                old(self).anchor(),
                old(self).scan_end(),
            ) {
                Some((s, e)) => r matches Some(tok) && ({
                    &&& tok.0@ == old(self).text_view().subrange(s, e)
                    &&& tok.1.0 as int == byte_index(old(self).text_view(), s)
                    &&& tok.1.1 as int == byte_index(old(self).text_view(), e)
                    &&& tok.2 matches Some(v) && *v == old(self).dict()[old(
                        self,
                    ).text_view().subrange(s, e)]
                    &&& old(self).dict().contains_key(old(self).text_view().subrange(s, e))
                    &&& old(self).anchor() <= s < e
                    &&& (s == old(self).anchor() ==> old(self).scan_end() < e)
                    &&& all_next(
                        final(self).dict(),
                        final(self).text_view(),
                        final(self).anchor(),
                        final(self).scan_end(),
                    ) == all_next(old(self).dict(), old(self).text_view(), s, e)
                    &&& (final(self).anchor() > old(self).anchor() || (final(self).anchor() == old(
                        self,
                    ).anchor() && final(self).scan_end() > old(self).scan_end()))
                }),
                None => r is None && final(self).anchor() >= final(self).text_view().len(),
            },
            old(self).anchor() >= old(self).text_view().len() ==> r is None && *final(self) == *old(
                self,
            ),
    {
        if self.start >= self.text.unicode_len() {
            return None;
        }
        let (tok, s2, e2, nd2) = step_all(self.root, self.trie, self.text, self.start, self.end);
        self.start = s2;
        self.end = e2;
        self.trie = nd2;
        match tok {
            Some((s, e, v)) => {
                let bs = byte_offset_of(self.text, s);
                let be = byte_offset_of(self.text, e);
                Some((self.text.substring_char(s, e), (bs, be), Some(v)))
            },
            None => None,
        }
    }
}

} // verus!
