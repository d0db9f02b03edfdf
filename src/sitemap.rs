//! Reading a sitemap document: the references it lists between `<loc>` and
//! `</loc>`, found by plain substring scanning, and whether a reference names a
//! nested sitemap or a page.
use vstd::prelude::*;
use crate::text::{
    chars_of, find, find_in, first_at, is_space, lemma_find_some, occurs_at, split_on,
    string_of, trim, trim_end, trim_range, trim_start,
};

verus! {

pub open spec fn open_tag() -> Seq<char> {
    seq!['<', 'l', 'o', 'c', '>']
}

pub open spec fn close_tag() -> Seq<char> {
    seq!['<', '/', 'l', 'o', 'c', '>']
}

/// What one piece following an opening tag contributes: the text before the
/// piece's first closing tag, trimmed, or nothing when the piece has none.
pub open spec fn loc_in_piece(piece: Seq<char>) -> Option<Seq<char>> {
    match find(piece, close_tag()) {
        Some(e) => Some(trim(piece.subrange(0, e))),
        None => None,
    }
}

pub open spec fn locs_in_pieces(ps: Seq<Seq<char>>) -> Seq<Seq<char>>
    decreases ps.len(),
{
    if ps.len() == 0 {
        seq![]
    } else {
        match loc_in_piece(ps[0]) {
            Some(r) => seq![r] + locs_in_pieces(ps.drop_first()),
            None => locs_in_pieces(ps.drop_first()),
        }
    }
}

/// The references a sitemap document lists, in document order: the document is
/// split on every opening tag, the text before the first one is ignored, and each
/// later piece contributes as `loc_in_piece` says.
pub open spec fn locs_of(doc: Seq<char>) -> Seq<Seq<char>> {
    locs_in_pieces(split_on(doc, open_tag()).drop_first())
}

/// A reference names a nested sitemap exactly when it ends in `.xml`.
pub open spec fn is_sitemap_ref(r: Seq<char>) -> bool {
    r.len() >= 4 && r.subrange(r.len() - 4, r.len() as int) == seq!['.', 'x', 'm', 'l']
}

/// `r` neither starts nor ends with whitespace.
pub open spec fn is_trimmed(r: Seq<char>) -> bool {
    r.len() > 0 ==> !is_space(r[0]) && !is_space(r.last())
}

proof fn lemma_trim_start_clean(s: Seq<char>)
    ensures
        trim_start(s).len() > 0 ==> !is_space(trim_start(s)[0]),
    decreases s.len(),
{
    if s.len() > 0 && is_space(s[0]) {
        lemma_trim_start_clean(s.drop_first());
    }
}

proof fn lemma_trim_end_prefix(s: Seq<char>)
    ensures
        trim_end(s).len() <= s.len(),
        trim_end(s) == s.subrange(0, trim_end(s).len() as int),
        trim_end(s).len() > 0 ==> !is_space(trim_end(s).last()),
    decreases s.len(),
{
    if s.len() > 0 && is_space(s.last()) {
        lemma_trim_end_prefix(s.drop_last());
        assert(s.drop_last().subrange(0, trim_end(s).len() as int) =~= s.subrange(
            0,
            trim_end(s).len() as int,
        ));
    } else {
        assert(s.subrange(0, s.len() as int) =~= s);
    }
}

proof fn lemma_trim_is_trimmed(s: Seq<char>)
    ensures
        is_trimmed(trim(s)),
{
    lemma_trim_start_clean(s);
    lemma_trim_end_prefix(trim_start(s));
}

proof fn lemma_pieces_trimmed(ps: Seq<Seq<char>>)
    ensures
        forall|i: int| 0 <= i < locs_in_pieces(ps).len() ==> is_trimmed(#[trigger] locs_in_pieces(ps)[i]),
    decreases ps.len(),
{
    if ps.len() > 0 {
        let tail = locs_in_pieces(ps.drop_first());
        lemma_pieces_trimmed(ps.drop_first());
        match find(ps[0], close_tag()) {
            Some(e) => {
                let r = trim(ps[0].subrange(0, e));
                lemma_trim_is_trimmed(ps[0].subrange(0, e));
                assert forall|i: int| 0 <= i < locs_in_pieces(ps).len() implies is_trimmed(
                    #[trigger] locs_in_pieces(ps)[i],
                ) by {
                    if i > 0 {
                        assert(locs_in_pieces(ps)[i] == tail[i - 1]);
                    }
                }
            },
            None => {},
        }
    }
}

/// Every reference read from a document is trimmed: whitespace between the
/// tags never reaches a reference.
pub proof fn lemma_locs_trimmed(doc: Seq<char>)
    ensures
        forall|i: int| 0 <= i < locs_of(doc).len() ==> is_trimmed(#[trigger] locs_of(doc)[i]),
{
    lemma_pieces_trimmed(split_on(doc, open_tag()).drop_first());
}

proof fn lemma_absent_in_subrange(s: Seq<char>, c: Seq<char>, a: int, b: int)
    requires
        0 <= a <= b <= s.len(),
        forall|j: int| !occurs_at(s, c, j),
    ensures
        forall|j: int| !occurs_at(s.subrange(a, b), c, j),
{
    assert forall|j: int| !occurs_at(s.subrange(a, b), c, j) by {
        if occurs_at(s.subrange(a, b), c, j) {
            assert forall|k: int| 0 <= k < c.len() implies s[a + j + k] == #[trigger] c[k] by {
                assert(s.subrange(a, b)[j + k] == c[k]);
            }
            assert(occurs_at(s, c, a + j));
        }
    }
}

proof fn lemma_split_absent(s: Seq<char>, p: Seq<char>, c: Seq<char>)
    requires
        p.len() > 0,
        forall|j: int| !occurs_at(s, c, j),
    ensures
        forall|k: int, j: int| 0 <= k < split_on(s, p).len() ==> !#[trigger] occurs_at(split_on(s, p)[k], c, j),
    decreases s.len(),
{
    lemma_split_step(s, p);
    match find(s, p) {
        Some(i) => {
            lemma_find_some(s, p);
            let rest = s.subrange(i + p.len(), s.len() as int);
            lemma_absent_in_subrange(s, c, 0, i);
            lemma_absent_in_subrange(s, c, i + p.len(), s.len() as int);
            lemma_split_absent(rest, p, c);
            assert forall|k: int, j: int| 0 <= k < split_on(s, p).len() implies !#[trigger] occurs_at(split_on(s, p)[k], c, j) by {
                if k > 0 {
                    assert(split_on(s, p)[k] == split_on(rest, p)[k - 1]);
                }
            }
        },
        None => {},
    }
}

proof fn lemma_pieces_without_close(ps: Seq<Seq<char>>)
    requires
        forall|k: int, j: int| 0 <= k < ps.len() ==> !#[trigger] occurs_at(ps[k], close_tag(), j),
    ensures
        locs_in_pieces(ps).len() == 0,
    decreases ps.len(),
{
    if ps.len() > 0 {
        assert(!exists|j: int| first_at(ps[0], close_tag(), j));
        assert forall|k: int, j: int| 0 <= k < ps.drop_first().len() implies !#[trigger] occurs_at(ps.drop_first()[k], close_tag(), j) by {
            assert(ps.drop_first()[k] == ps[k + 1]);
        }
        lemma_pieces_without_close(ps.drop_first());
    }
}

/// A document in which no closing tag occurs lists no references, whatever
/// opening tags it holds.
pub proof fn lemma_unclosed_yields_nothing(doc: Seq<char>)
    requires
        forall|j: int| !occurs_at(doc, close_tag(), j),
    ensures
        locs_of(doc).len() == 0,
{
    lemma_split_absent(doc, open_tag(), close_tag());
    let ps = split_on(doc, open_tag()).drop_first();
    assert forall|k: int, j: int| 0 <= k < ps.len() implies !#[trigger] occurs_at(ps[k], close_tag(), j) by {
        assert(ps[k] == split_on(doc, open_tag())[k + 1]);
    }
    lemma_pieces_without_close(ps);
}

fn open_tag_chars() -> (r: Vec<char>)
    ensures
        r@ == open_tag(),
{
    let r = vec!['<', 'l', 'o', 'c', '>'];
    assert(r@ =~= open_tag());
    r
}

fn close_tag_chars() -> (r: Vec<char>)
    ensures
        r@ == close_tag(),
{
    let r = vec!['<', '/', 'l', 'o', 'c', '>'];
    assert(r@ =~= close_tag());
    r
}

proof fn lemma_split_step(s: Seq<char>, p: Seq<char>)
    requires
        p.len() > 0,
    ensures
        match find(s, p) {
            Some(i) => split_on(s, p) == seq![s.subrange(0, i)] + split_on(
                s.subrange(i + p.len(), s.len() as int),
                p,
            ),
            None => split_on(s, p) == seq![s],
        },
{
    if find(s, p) is Some {
        lemma_find_some(s, p);
    }
}

proof fn lemma_pieces_step(head: Seq<char>, tail: Seq<Seq<char>>)
    ensures
        locs_in_pieces(seq![head] + tail) == match loc_in_piece(head) {
            Some(r) => seq![r] + locs_in_pieces(tail),
            None => locs_in_pieces(tail),
        },
{
    let ps = seq![head] + tail;
    assert(ps[0] == head);
    assert(ps.drop_first() =~= tail);
}

/// The references listed in `xml`, in document order.
pub fn extract_locs(xml: &str) -> (r: Vec<String>)
    ensures
        r.deep_view() == locs_of(xml@),
{
    let cs = chars_of(xml);
    let open = open_tag_chars();
    let close = close_tag_chars();
    let n = cs.len();
    let mut out: Vec<String> = Vec::new();
    let first = find_in(&cs, &open, 0, n);
    proof {
        assert(cs@.subrange(0, n as int) =~= cs@);
        lemma_split_step(cs@, open_tag());
    }
    let mut start: usize = match first {
        Some(i) => i + 5,
        None => {
            assert(split_on(cs@, open_tag()).drop_first() =~= seq![]);
            assert(out.deep_view() =~= seq![]);
            return out;
        },
    };
    assert(split_on(cs@, open_tag()).drop_first() =~= split_on(
        cs@.subrange(start as int, n as int),
        open_tag(),
    ));
    loop
        invariant
            start <= n == cs.len(),
            cs@ == xml@,
            open@ == open_tag(),
            close@ == close_tag(),
            locs_of(xml@) == out.deep_view() + locs_in_pieces(
                split_on(cs@.subrange(start as int, n as int), open_tag()),
            ),
        decreases n - start,
    {
        let ghost rest = cs@.subrange(start as int, n as int);
        let next = find_in(&cs, &open, start, n);
        let end: usize = match next {
            Some(j) => j,
            None => n,
        };
        proof {
            lemma_split_step(rest, open_tag());
            if next is Some {
                lemma_find_some(rest, open_tag());
            }
        }
        let ghost piece = cs@.subrange(start as int, end as int);
        assert(piece =~= match find(rest, open_tag()) {
            Some(k) => rest.subrange(0, k),
            None => rest,
        });
        let ghost tail = match find(rest, open_tag()) {
            Some(k) => split_on(rest.subrange(k + 5, rest.len() as int), open_tag()),
            None => seq![],
        };
        assert(split_on(rest, open_tag()) =~= seq![piece] + tail);
        proof {
            lemma_pieces_step(piece, tail);
        }
        let ghost before = out.deep_view();
        let hit = find_in(&cs, &close, start, end);
        match hit {
            Some(e) => {
                let (lo, hi) = trim_range(&cs, start, e);
                assert(cs@.subrange(start as int, e as int) =~= piece.subrange(0, e - start));
                let link = string_of(&cs, lo, hi);
                out.push(link);
                assert(out.deep_view() =~= before.push(trim(piece.subrange(0, e - start))));
            },
            None => {},
        }
        match next {
            Some(j) => {
                assert(cs@.subrange(j + 5, n as int) =~= rest.subrange(j - start + 5, rest.len() as int));
                start = j + 5;
            },
            None => {
                assert(tail =~= seq![]);
                assert(locs_in_pieces(tail) =~= seq![]);
                assert(out.deep_view() =~= locs_of(xml@));
                return out;
            },
        }
    }
}

/// Whether `link` names a nested sitemap, that is, ends in `.xml`.
pub fn is_nested_sitemap(link: &str) -> (r: bool)
    ensures
        r == is_sitemap_ref(link@),
{
    let n = link.unicode_len();
    if n < 4 {
        return false;
    }
    let r = link.get_char(n - 4) == '.' && link.get_char(n - 3) == 'x' && link.get_char(n - 2)
        == 'm' && link.get_char(n - 1) == 'l';
    assert(r == (link@.subrange(n - 4, n as int) =~= seq!['.', 'x', 'm', 'l']));
    r
}

} // verus!
