//! Text primitives: grapheme clusters, whitespace, and substring search.

use unicode_segmentation::UnicodeSegmentation;
use vstd::prelude::*;
use vstd::string::StrSliceExecFns;
use vstd::string::StringExecFns;

verus! {

/// The extended grapheme clusters of a string, in order.
pub uninterp spec fn graphemes_of(s: Seq<char>) -> Seq<Seq<char>>;

/// Relies on `UnicodeSegmentation::graphemes` of unicode-segmentation
/// (extended clusters): its result depends on the text alone.
#[verifier::external_body]
pub(crate) fn graphemes(s: &str) -> (r: Vec<String>)
    ensures
        r@.map_values(|g: String| g@) == graphemes_of(s@),
{
    s.graphemes(true).map(|g| g.to_string()).collect()
}

/// Unicode `White_Space`, the class that `char::is_whitespace` and the
/// `\s` of regular expressions test.
pub open spec fn is_ws_char(c: char) -> bool {
    let v = c as u32;
    (0x09 <= v && v <= 0x0d) || v == 0x20 || v == 0x85 || v == 0xa0 || v == 0x1680
        || (0x2000 <= v && v <= 0x200a) || v == 0x2028 || v == 0x2029 || v == 0x202f
        || v == 0x205f || v == 0x3000
}

/// Whether `c` is whitespace.
pub fn is_ws(c: char) -> (r: bool)
    ensures
        r == is_ws_char(c),
{
    let v = c as u32;
    (0x09 <= v && v <= 0x0d) || v == 0x20 || v == 0x85 || v == 0xa0 || v == 0x1680
        || (0x2000 <= v && v <= 0x200a) || v == 0x2028 || v == 0x2029 || v == 0x202f
        || v == 0x205f || v == 0x3000
}

/// The characters of a string, as a vector.
pub fn char_vec(s: &str) -> (r: Vec<char>)
    ensures
        r@ == s@,
{
    let n = s.unicode_len();
    let mut r: Vec<char> = Vec::new();
    let mut i: usize = 0;
    while i < n
        invariant
            n == s@.len(),
            i <= n,
            r@ == s@.subrange(0, i as int),
        decreases n - i,
    {
        r.push(s.get_char(i));
        i = i + 1;
        assert(r@ =~= s@.subrange(0, i as int));
    }
    assert(r@ =~= s@);
    r
}

/// A cluster that holds no whitespace at all: the part of a cell's text.
pub open spec fn is_word(g: Seq<char>) -> bool {
    g.len() > 0 && forall|i: int| 0 <= i < g.len() ==> !is_ws_char(#[trigger] g[i])
}

/// A cluster that is exactly one ASCII space.
pub open spec fn is_space(g: Seq<char>) -> bool {
    g == seq![' ']
}

/// A cluster that ends a line: a line feed, or a carriage return and a line feed.
pub open spec fn is_newline(g: Seq<char>) -> bool {
    g == seq!['\n'] || g == seq!['\r', '\n']
}

/// Whether the cluster holds no whitespace.
pub fn word_cluster(g: &String) -> (r: bool)
    ensures
        r == is_word(g@),
{
    let cs = char_vec(g.as_str());
    if cs.len() == 0 {
        return false;
    }
    let mut i: usize = 0;
    while i < cs.len()
        invariant
            cs@ == g@,
            i <= cs.len(),
            forall|j: int| 0 <= j < i ==> !is_ws_char(#[trigger] g@[j]),
        decreases cs.len() - i,
    {
        if is_ws(cs[i]) {
            return false;
        }
        i = i + 1;
    }
    true
}

/// Whether the cluster is one ASCII space.
pub fn space_cluster(g: &String) -> (r: bool)
    ensures
        r == is_space(g@),
{
    let cs = char_vec(g.as_str());
    let r = cs.len() == 1 && cs[0] == ' ';
    proof {
        if r {
            assert(g@ =~= seq![' ']);
        }
    }
    r
}

/// Whether the cluster is a line break.
pub fn newline_cluster(g: &String) -> (r: bool)
    ensures
        r == is_newline(g@),
{
    let cs = char_vec(g.as_str());
    let r = (cs.len() == 1 && cs[0] == '\n') || (cs.len() == 2 && cs[0] == '\r' && cs[1] == '\n');
    proof {
        if cs.len() == 1 && cs[0] == '\n' {
            assert(g@ =~= seq!['\n']);
        }
        if cs.len() == 2 && cs[0] == '\r' && cs[1] == '\n' {
            assert(g@ =~= seq!['\r', '\n']);
        }
    }
    r
}

/// The text of a sequence of clusters, laid end to end.
pub open spec fn concat(gs: Seq<Seq<char>>) -> Seq<char>
    decreases gs.len(),
{
    if gs.len() == 0 {
        Seq::empty()
    } else {
        concat(gs.drop_last()) + gs.last()
    }
}

/// The views of a vector of strings.
pub open spec fn views(v: Seq<String>) -> Seq<Seq<char>> {
    v.map_values(|g: String| g@)
}

/// The text of the clusters `gs[a..b]`, as one string.
pub fn join_range(gs: &Vec<String>, a: usize, b: usize) -> (r: String)
    requires
        a <= b <= gs.len(),
    ensures
        r@ == concat(views(gs@).subrange(a as int, b as int)),
{
    let mut r = String::new();
    let mut j: usize = a;
    while j < b
        invariant
            a <= j <= b <= gs.len(),
            r@ == concat(views(gs@).subrange(a as int, j as int)),
        decreases b - j,
    {
        r.append(gs[j].as_str());
        j = j + 1;
        assert(views(gs@).subrange(a as int, j as int).drop_last() =~= views(gs@).subrange(
            a as int,
            j - 1,
        ));
    }
    r
}

/// `p` occurs in `s` as a contiguous run of characters.
pub open spec fn has_sub(s: Seq<char>, p: Seq<char>) -> bool {
    exists|i: int| 0 <= i && i + p.len() <= s.len() && #[trigger] s.subrange(i, i + p.len()) == p
}

/// Occurrence is transitive: what occurs in a part of `s` occurs in `s`.
pub proof fn lemma_has_sub_trans(s: Seq<char>, q: Seq<char>, p: Seq<char>)
    requires
        has_sub(s, q),
        has_sub(q, p),
    ensures
        has_sub(s, p),
{
    let i = choose|i: int| 0 <= i && i + q.len() <= s.len() && #[trigger] s.subrange(i, i + q.len()) == q;
    let j = choose|j: int| 0 <= j && j + p.len() <= q.len() && #[trigger] q.subrange(j, j + p.len()) == p;
    assert(s.subrange(i + j, i + j + p.len()) =~= q.subrange(j, j + p.len()));
}

/// The empty pattern occurs in every text.
pub proof fn lemma_has_sub_empty(s: Seq<char>)
    ensures
        has_sub(s, Seq::empty()),
{
    let e = Seq::<char>::empty();
    assert(s.subrange(0, 0 + e.len() as int) =~= e);
}

/// Whether `p` occurs in `s`.
pub fn contains_chars(s: &Vec<char>, p: &Vec<char>) -> (r: bool)
    ensures
        r == has_sub(s@, p@),
{
    if p.len() > s.len() {
        return false;
    }
    let mut i: usize = 0;
    while i <= s.len() - p.len()
        invariant
            p.len() <= s.len(),
            i <= s.len() - p.len() + 1,
            forall|k: int| 0 <= k < i ==> #[trigger] s@.subrange(k, k + p.len()) != p@,
        decreases s.len() - i,
    {
        let mut j: usize = 0;
        let mut same = true;
        while j < p.len()
            invariant
                i + p.len() <= s.len(),
                j <= p.len(),
                same <==> forall|m: int| 0 <= m < j ==> s@[i + m] == p@[m],
            decreases p.len() - j,
        {
            if s[i + j] != p[j] {
                same = false;
            }
            j = j + 1;
        }
        if same {
            assert(s@.subrange(i as int, i + p.len()) =~= p@);
            return true;
        }
        proof {
            let m = choose|m: int| 0 <= m < p.len() && s@[i + m] != p@[m];
            assert(s@.subrange(i as int, i + p.len())[m] != p@[m]);
        }
        i = i + 1;
    }
    false
}

} // verus!
