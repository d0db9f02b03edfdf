//! Seeds for resolution: the location of a site's `robots.txt`, and the sitemap
//! URLs its `Sitemap:` directives name.
use vstd::prelude::*;
use crate::text::{chars_of, find, find_in, lemma_find_some, split_on, string_of, trim, trim_range};

verus! {

pub open spec fn robots_suffix() -> Seq<char> {
    seq!['/', 'r', 'o', 'b', 'o', 't', 's', '.', 't', 'x', 't']
}

/// `s` without the `/` characters at its end.
pub open spec fn trim_trailing_slashes(s: Seq<char>) -> Seq<char>
    decreases s.len(),
{
    if s.len() > 0 && s.last() == '/' {
        trim_trailing_slashes(s.drop_last())
    } else {
        s
    }
}

/// The URL of the `robots.txt` of the site at `domain`.
pub fn robots_url(domain: &str) -> (r: String)
    ensures
        r@ == trim_trailing_slashes(domain@) + robots_suffix(),
{
    let cs = chars_of(domain);
    let mut hi: usize = cs.len();
    assert(cs@.subrange(0, hi as int) =~= cs@);
    while hi > 0 && cs[hi - 1] == '/'
        invariant
            hi <= cs.len(),
            trim_trailing_slashes(domain@) == trim_trailing_slashes(cs@.subrange(0, hi as int)),
        decreases hi,
    {
        assert(cs@.subrange(0, hi as int).drop_last() =~= cs@.subrange(0, hi - 1));
        hi = hi - 1;
    }
    let mut all = cs;
    all.truncate(hi);
    assert(all@ =~= trim_trailing_slashes(domain@) + robots_suffix().take(0));
    let suffix = vec!['/', 'r', 'o', 'b', 'o', 't', 's', '.', 't', 'x', 't'];
    let mut i: usize = 0;
    while i < suffix.len()
        invariant
            i <= suffix.len(),
            suffix@ == robots_suffix(),
            all@ == trim_trailing_slashes(domain@) + robots_suffix().take(i as int),
        decreases suffix.len() - i,
    {
        all.push(suffix[i]);
        assert(robots_suffix().take(i + 1) =~= robots_suffix().take(i as int).push(suffix@[i as int]));
        i = i + 1;
    }
    assert(robots_suffix().take(11) =~= robots_suffix());
    string_of(&all, 0, all.len())
}

pub open spec fn directive_lower() -> Seq<char> {
    seq!['s', 'i', 't', 'e', 'm', 'a', 'p', ':']
}

pub open spec fn directive_upper() -> Seq<char> {
    seq!['S', 'I', 'T', 'E', 'M', 'A', 'P', ':']
}

/// The line starts with `sitemap:` in any mix of letter case. (Lowercasing the
/// whole line and testing for `sitemap:` accepts the same lines: no character
/// but the ASCII capitals lowercases to one of these letters alone.)
pub open spec fn is_directive(line: Seq<char>) -> bool {
    &&& line.len() >= 8
    &&& forall|k: int| 0 <= k < 8 ==> line[k] == directive_lower()[k] || line[k] == #[trigger] directive_upper()[k]
}

/// The value of a directive line: what follows the eight characters of its name,
/// trimmed. A `\r` that ended the line is whitespace and goes with the trim.
pub open spec fn directive_value(line: Seq<char>) -> Seq<char> {
    trim(line.subrange(8, line.len() as int))
}

pub open spec fn directives_in(lines: Seq<Seq<char>>) -> Seq<Seq<char>>
    decreases lines.len(),
{
    if lines.len() == 0 {
        seq![]
    } else if is_directive(lines[0]) {
        seq![directive_value(lines[0])] + directives_in(lines.drop_first())
    } else {
        directives_in(lines.drop_first())
    }
}

/// The sitemap URLs that the directives of a `robots.txt` text name, in order.
pub open spec fn sitemap_urls_of(robots: Seq<char>) -> Seq<Seq<char>> {
    directives_in(split_on(robots, seq!['\n']))
}

fn is_directive_at(cs: &Vec<char>, from: usize, to: usize) -> (r: bool)
    requires
        from <= to <= cs.len(),
    ensures
        r == is_directive(cs@.subrange(from as int, to as int)),
{
    if to - from < 8 {
        return false;
    }
    let lower = vec!['s', 'i', 't', 'e', 'm', 'a', 'p', ':'];
    let upper = vec!['S', 'I', 'T', 'E', 'M', 'A', 'P', ':'];
    assert(lower@ =~= directive_lower());
    assert(upper@ =~= directive_upper());
    let ghost line = cs@.subrange(from as int, to as int);
    let mut k: usize = 0;
    while k < 8
        invariant
            k <= 8,
            from + 8 <= to <= cs.len(),
            line == cs@.subrange(from as int, to as int),
            lower@ == directive_lower(),
            upper@ == directive_upper(),
            forall|m: int| 0 <= m < k ==> line[m] == directive_lower()[m] || line[m] == #[trigger] directive_upper()[m],
        decreases 8 - k,
    {
        let c = cs[from + k];
        assert(c == line[k as int]);
        if c != lower[k] && c != upper[k] {
            assert(!(line[k as int] == directive_lower()[k as int] || line[k as int] == directive_upper()[k as int]));
            return false;
        }
        k = k + 1;
    }
    true
}

proof fn lemma_lines_step(head: Seq<char>, tail: Seq<Seq<char>>)
    ensures
        directives_in(seq![head] + tail) == if is_directive(head) {
            seq![directive_value(head)] + directives_in(tail)
        } else {
            directives_in(tail)
        },
{
    let ls = seq![head] + tail;
    assert(ls[0] == head);
    assert(ls.drop_first() =~= tail);
}

/// The sitemap URLs named by the `Sitemap:` directives of `robots`, in order.
pub fn sitemap_urls(robots: &str) -> (r: Vec<String>)
    ensures
        r.deep_view() == sitemap_urls_of(robots@),
{
    let cs = chars_of(robots);
    let nl = vec!['\n'];
    assert(nl@ =~= seq!['\n']);
    let n = cs.len();
    let mut out: Vec<String> = Vec::new();
    let mut start: usize = 0;
    assert(cs@.subrange(0, n as int) =~= cs@);
    assert(out.deep_view() =~= seq![]);
    loop
        invariant
            start <= n == cs.len(),
            cs@ == robots@,
            nl@ == seq!['\n'],
            sitemap_urls_of(robots@) == out.deep_view() + directives_in(
                split_on(cs@.subrange(start as int, n as int), seq!['\n']),
            ),
        decreases n - start,
    {
        let ghost rest = cs@.subrange(start as int, n as int);
        let next = find_in(&cs, &nl, start, n);
        let end: usize = match next {
            Some(j) => j,
            None => n,
        };
        proof {
            if next is Some {
                lemma_find_some(rest, seq!['\n']);
            }
        }
        let ghost line = cs@.subrange(start as int, end as int);
        assert(line =~= match find(rest, seq!['\n']) {
            Some(k) => rest.subrange(0, k),
            None => rest,
        });
        let ghost tail = match find(rest, seq!['\n']) {
            Some(k) => split_on(rest.subrange(k + 1, rest.len() as int), seq!['\n']),
            None => seq![],
        };
        assert(split_on(rest, seq!['\n']) =~= seq![line] + tail);
        proof {
            lemma_lines_step(line, tail);
        }
        let ghost before = out.deep_view();
        if is_directive_at(&cs, start, end) {
            let (lo, hi) = trim_range(&cs, start + 8, end);
            assert(cs@.subrange(start + 8, end as int) =~= line.subrange(8, line.len() as int));
            let url = string_of(&cs, lo, hi);
            out.push(url);
            assert(out.deep_view() =~= before.push(directive_value(line)));
        }
        match next {
            Some(j) => {
                assert(cs@.subrange(j + 1, n as int) =~= rest.subrange(j - start + 1, rest.len() as int));
                start = j + 1;
            },
            None => {
                assert(directives_in(tail) =~= seq![]);
                assert(out.deep_view() =~= sitemap_urls_of(robots@));
                return out;
            },
        }
    }
}

} // verus!
