use vstd::prelude::*;
use vstd::relations::{sorted_by, total_ordering};
use itertools::Itertools;

verus! {

broadcast use vstd::string::group_string_axioms;

/// Every character is in the ASCII range.
pub open spec fn is_ascii_text(s: Seq<char>) -> bool {
    forall|i: int| 0 <= i < s.len() ==> (#[trigger] s[i] as int) < 128
}

/// Unicode's White_Space characters, by which `str::trim` cuts.
pub open spec fn is_white_space(c: char) -> bool {
    let n = c as int;
    ||| 0x9 <= n <= 0xd
    ||| n == 0x20
    ||| n == 0x85
    ||| n == 0xa0
    ||| n == 0x1680
    ||| 0x2000 <= n <= 0x200a
    ||| n == 0x2028
    ||| n == 0x2029
    ||| n == 0x202f
    ||| n == 0x205f
    ||| n == 0x3000
}

/// `s` without its leading whitespace.
pub open spec fn trim_start(s: Seq<char>) -> Seq<char>
    decreases s.len(),
{
    if s.len() > 0 && is_white_space(s[0]) { trim_start(s.drop_first()) } else { s }
}

/// `s` without its trailing whitespace.
pub open spec fn trim_end(s: Seq<char>) -> Seq<char>
    decreases s.len(),
{
    if s.len() > 0 && is_white_space(s.last()) { trim_end(s.drop_last()) } else { s }
}

/// What `str::trim` leaves of a text: the text without its leading and
/// trailing whitespace.
pub open spec fn trimmed(s: Seq<char>) -> Seq<char> {
    trim_end(trim_start(s))
}

/// An ASCII letter made lowercase; any other character unchanged.
pub open spec fn ascii_lower(c: char) -> char {
    if 65 <= (c as int) <= 90 { ((c as int) + 32) as char } else { c }
}

/// Every ASCII letter of `s` made lowercase.
pub open spec fn ascii_lowercase(s: Seq<char>) -> Seq<char> {
    s.map_values(|c: char| ascii_lower(c))
}

/// What `str::to_lowercase` makes of a text that is not ASCII.
pub uninterp spec fn lowercased(s: Seq<char>) -> Seq<char>;

/// What `str::to_lowercase` makes of a text: on ASCII text the letters A-Z
/// become a-z; any other text gives what is named `lowercased`.
pub open spec fn lowercase_of(s: Seq<char>) -> Seq<char> {
    if is_ascii_text(s) { ascii_lowercase(s) } else { lowercased(s) }
}

/// What `unidecode::unidecode` makes of a text that is not ASCII.
pub uninterp spec fn transliterated(s: Seq<char>) -> Seq<char>;

/// What `unidecode::unidecode` makes of a text: ASCII text is unchanged;
/// any other text gives what is named `transliterated`.
pub open spec fn transliteration_of(s: Seq<char>) -> Seq<char> {
    if is_ascii_text(s) { s } else { transliterated(s) }
}

/// `str::trim`: the text without its leading and trailing whitespace, where
/// whitespace is Unicode's White_Space, as std documents.
#[verifier::external_body]
pub(crate) fn trim_text(s: &str) -> (r: &str)
    ensures
        r@ == trimmed(s@),
{
    s.trim()
}

/// `str::to_lowercase`: the Unicode lowercase of a text. On ASCII text it
/// maps A-Z to a-z and leaves every other character; on other text the
/// result is named `lowercased`.
#[verifier::external_body]
pub(crate) fn lowercase_text(s: &str) -> (r: String)
    ensures
        r@ == (if is_ascii_text(s@) { ascii_lowercase(s@) } else { lowercased(s@) }),
{
    s.to_lowercase()
}

/// `unidecode::unidecode`: the ASCII transliteration of a text. As the crate
/// documents, the result is ASCII and every ASCII character stands for
/// itself, so an ASCII text comes back unchanged; on other text the result is
/// named `transliterated`.
#[verifier::external_body]
pub(crate) fn transliterate(s: &str) -> (r: String)
    ensures
        r@ == (if is_ascii_text(s@) { s@ } else { transliterated(s@) }),
        is_ascii_text(r@),
{
    unidecode::unidecode(s)
}

/// The key under which a name is looked up: trimmed, lowercased, transliterated.
pub open spec fn normalized(s: Seq<char>) -> Seq<char> {
    transliteration_of(lowercase_of(trimmed(s)))
}

/// The key under which a name is looked up.
pub fn normalize(s: &str) -> (r: String)
    ensures
        r@ == normalized(s@),
{
    let t = trim_text(s);
    let l = lowercase_text(t);
    transliterate(l.as_str())
}

/// A name made of ASCII letters only.
pub open spec fn is_plain_name(s: Seq<char>) -> bool {
    &&& s.len() > 0
    &&& forall|i: int| 0 <= i < s.len() ==> {
        let n = #[trigger] s[i] as int;
        (65 <= n <= 90) || (97 <= n <= 122)
    }
}

/// The key of a plain name is its lowercase.
pub proof fn lemma_plain_name_key(s: Seq<char>)
    requires
        is_plain_name(s),
    ensures
        normalized(s) == ascii_lowercase(s),
        lowercase_of(s) == ascii_lowercase(s),
        is_plain_name(ascii_lowercase(s)),
{
    assert(!is_white_space(s[0]));
    assert(trim_start(s) == s);
    assert(!is_white_space(s.last()));
    assert(trim_end(s) == s);
    assert(is_ascii_text(s));
    let l = ascii_lowercase(s);
    assert forall|i: int| 0 <= i < l.len() implies {
        let n = #[trigger] l[i] as int;
        97 <= n <= 122
    } by {
        assert(l[i] == ascii_lower(s[i]));
    }
    assert(is_ascii_text(l));
}

/// Whether two texts are the same.
pub fn same_text(a: &str, b: &str) -> (r: bool)
    ensures
        r == (a@ == b@),
{
    let x = a.to_string();
    let y = b.to_string();
    x == y
}

/// Lexicographic order of texts by code point, the order of `str`.
pub open spec fn text_le(a: Seq<char>, b: Seq<char>) -> bool
    decreases a.len(),
{
    if a.len() == 0 {
        true
    } else if b.len() == 0 {
        false
    } else if a[0] != b[0] {
        (a[0] as int) < (b[0] as int)
    } else {
        text_le(a.drop_first(), b.drop_first())
    }
}

/// `text_le` as a relation.
pub open spec fn text_order() -> spec_fn(Seq<char>, Seq<char>) -> bool {
    |a: Seq<char>, b: Seq<char>| text_le(a, b)
}

proof fn lemma_text_le_props(a: Seq<char>, b: Seq<char>, c: Seq<char>)
    ensures
        text_le(a, a),
        text_le(a, b) || text_le(b, a),
        text_le(a, b) && text_le(b, a) ==> a =~= b,
        text_le(a, b) && text_le(b, c) ==> text_le(a, c),
    decreases a.len(),
{
    if a.len() > 0 && b.len() > 0 {
        assert(a[0] != b[0] ==> (a[0] as int) != (b[0] as int));
    }
    if a.len() > 0 && b.len() > 0 && c.len() > 0 {
        lemma_text_le_props(a.drop_first(), b.drop_first(), c.drop_first());
        if text_le(a, b) && text_le(b, a) {
            assert(a[0] == b[0]);
            assert(a =~= seq![a[0]] + a.drop_first());
            assert(b =~= seq![b[0]] + b.drop_first());
        }
    } else if a.len() > 0 && b.len() > 0 {
        lemma_text_le_props(a.drop_first(), b.drop_first(), b.drop_first());
        if text_le(a, b) && text_le(b, a) {
            assert(a =~= seq![a[0]] + a.drop_first());
            assert(b =~= seq![b[0]] + b.drop_first());
        }
    } else if a.len() > 0 {
        lemma_text_le_props(a.drop_first(), a.drop_first(), a.drop_first());
    }
}

/// The order of texts is a total order.
pub proof fn lemma_text_order_total()
    ensures
        total_ordering(text_order()),
{
    assert forall|a: Seq<char>, b: Seq<char>, c: Seq<char>|
        #[trigger] text_order()(a, b) && #[trigger] text_order()(b, c) implies text_order()(a, c) by {
        lemma_text_le_props(a, b, c);
    }
    assert forall|a: Seq<char>, b: Seq<char>|
        #[trigger] text_order()(a, b) && #[trigger] text_order()(b, a) implies a == b by {
        lemma_text_le_props(a, b, a);
    }
    assert forall|a: Seq<char>, b: Seq<char>| #[trigger] text_order()(a, b) || #[trigger] text_order()(b, a) by {
        lemma_text_le_props(a, b, a);
    }
    assert forall|a: Seq<char>| #[trigger] text_order()(a, a) by {
        lemma_text_le_props(a, a, a);
    }
}

/// The texts of a vector.
pub open spec fn texts(v: Seq<String>) -> Seq<Seq<char>> {
    v.map_values(|s: String| s@)
}

/// `Itertools::sorted` on texts: the same texts in ascending order of
/// `String`, which compares the UTF-8 bytes lexicographically; on valid UTF-8
/// that is the lexicographic order of code points, `text_order`.
#[verifier::external_body]
fn sorted_texts(v: Vec<String>) -> (r: Vec<String>)
    ensures
        texts(r@).to_multiset() == texts(v@).to_multiset(),
        sorted_by(texts(r@), text_order()),
{
    v.into_iter().sorted().collect()
}

/// The texts one after the other with `sep` between each two.
pub open spec fn joined(v: Seq<Seq<char>>, sep: Seq<char>) -> Seq<char>
    decreases v.len(),
{
    if v.len() == 0 {
        Seq::empty()
    } else if v.len() == 1 {
        v[0]
    } else {
        joined(v.drop_last(), sep) + sep + v.last()
    }
}

/// The texts of `v` one after the other with `sep` between each two.
pub fn join_with(v: &Vec<String>, sep: &str) -> (r: String)
    ensures
        r@ == joined(texts(v@), sep@),
{
    let mut r = String::new();
    let mut i: usize = 0;
    while i < v.len()
        invariant
            0 <= i <= v.len(),
            r@ == joined(texts(v@).subrange(0, i as int), sep@),
        decreases v.len() - i,
    {
        proof {
            let t = texts(v@);
            assert(t.subrange(0, i + 1).drop_last() =~= t.subrange(0, i as int));
            assert(t.subrange(0, i + 1).last() == v@[i as int]@);
        }
        if i > 0 {
            r.append(sep);
        }
        r.append(v[i].as_str());
        proof {
            if i == 0 {
                assert(r@ =~= joined(texts(v@).subrange(0, 1), sep@));
            }
        }
        i = i + 1;
    }
    proof {
        assert(texts(v@).subrange(0, i as int) =~= texts(v@));
    }
    r
}

/// The pieces of a text between its line feeds, in order: always one more
/// than there are line feeds.
pub open spec fn newline_pieces(s: Seq<char>) -> Seq<Seq<char>>
    decreases s.len(),
{
    if s.len() == 0 {
        seq![Seq::empty()]
    } else {
        let p = newline_pieces(s.drop_last());
        if s.last() == '\n' {
            p.push(Seq::empty())
        } else {
            p.update(p.len() - 1, p.last().push(s.last()))
        }
    }
}

/// A line without the carriage return that ends it, if one does.
pub open spec fn without_cr(l: Seq<char>) -> Seq<char> {
    if l.len() > 0 && l.last() == '\r' { l.drop_last() } else { l }
}

/// What `str::lines` splits a text into, as std documents it: the pieces
/// between line feeds; a piece that a line feed ends loses a carriage return
/// before it; the piece after the last line feed is a line, kept whole, only
/// when it is not empty.
pub open spec fn text_lines(s: Seq<char>) -> Seq<Seq<char>> {
    let p = newline_pieces(s);
    let ended = p.drop_last().map_values(|l: Seq<char>| without_cr(l));
    if p.last().len() == 0 { ended } else { ended.push(p.last()) }
}

proof fn lemma_pieces_len(s: Seq<char>)
    ensures
        newline_pieces(s).len() >= 1,
    decreases s.len(),
{
    if s.len() > 0 {
        lemma_pieces_len(s.drop_last());
    }
}

/// Text without a line feed, appended, runs on the last piece.
proof fn lemma_pieces_run_on(a: Seq<char>, b: Seq<char>)
    requires
        !b.contains('\n'),
    ensures
        newline_pieces(a + b) == newline_pieces(a).update(
            newline_pieces(a).len() - 1,
            newline_pieces(a).last() + b,
        ),
    decreases b.len(),
{
    lemma_pieces_len(a);
    let p = newline_pieces(a);
    if b.len() == 0 {
        assert(a + b =~= a);
        assert(p.last() + b =~= p.last());
        assert(p.update(p.len() - 1, p.last() + b) =~= p);
    } else {
        let b1 = b.drop_last();
        assert(!b1.contains('\n')) by {
            if b1.contains('\n') {
                let k = choose|k: int| 0 <= k < b1.len() && b1[k] == '\n';
                assert(b[k] == '\n');
            }
        }
        assert(b.last() != '\n') by {
            assert(b[b.len() - 1] == b.last());
        }
        lemma_pieces_run_on(a, b1);
        assert((a + b).drop_last() =~= a + b1);
        assert((a + b).last() == b.last());
        assert((p.last() + b1).push(b.last()) =~= p.last() + b);
        assert(newline_pieces(a + b) =~= p.update(p.len() - 1, p.last() + b));
    }
}

/// Texts without line feeds, joined with line feeds, split back into
/// themselves.
proof fn lemma_pieces_of_joined(v: Seq<Seq<char>>)
    requires
        v.len() > 0,
        forall|i: int| 0 <= i < v.len() ==> !(#[trigger] v[i]).contains('\n'),
    ensures
        newline_pieces(joined(v, seq!['\n'])) == v,
    decreases v.len(),
{
    if v.len() == 1 {
        lemma_pieces_run_on(Seq::empty(), v[0]);
        assert(Seq::<char>::empty() + v[0] =~= v[0]);
        assert(newline_pieces(v[0]) =~= v);
    } else {
        let w = v.drop_last();
        assert forall|i: int| 0 <= i < w.len() implies !(#[trigger] w[i]).contains('\n') by {
            assert(w[i] == v[i]);
        }
        lemma_pieces_of_joined(w);
        let x = joined(w, seq!['\n']);
        let xn = x + seq!['\n'];
        assert(xn.drop_last() =~= x);
        assert(newline_pieces(xn) == newline_pieces(x).push(Seq::empty()));
        assert(v[v.len() - 1] == v.last());
        lemma_pieces_run_on(xn, v.last());
        assert(Seq::<char>::empty() + v.last() =~= v.last());
        assert(newline_pieces(xn + v.last()) =~= v);
    }
}

/// Law of lines: texts that hold no line feed and do not end with a carriage
/// return, joined with line feeds, come back from `str::lines` as they were,
/// provided the last of them is not empty.
pub proof fn lemma_lines_of_joined(v: Seq<Seq<char>>)
    requires
        forall|i: int| 0 <= i < v.len() ==> !(#[trigger] v[i]).contains('\n'),
        forall|i: int| 0 <= i < v.len() ==> (#[trigger] v[i]).len() == 0 || v[i].last() != '\r',
        v.len() == 0 || v.last().len() > 0,
    ensures
        text_lines(joined(v, seq!['\n'])) == v,
{
    if v.len() == 0 {
        assert(joined(v, seq!['\n']) =~= Seq::<char>::empty());
        assert(text_lines(Seq::empty()) =~= v);
    } else {
        lemma_pieces_of_joined(v);
        let p = newline_pieces(joined(v, seq!['\n']));
        assert(v[v.len() - 1] == v.last());
        assert(p.drop_last().map_values(|l: Seq<char>| without_cr(l)) =~= v.drop_last()) by {
            assert forall|i: int| 0 <= i < v.len() - 1 implies without_cr(#[trigger] v[i]) == v[i] by {}
        }
        assert(v.drop_last().push(v.last()) =~= v);
    }
}

/// `str::lines`: the lines of a text, as `text_lines` states them, each made
/// a `String`.
#[verifier::external_body]
pub(crate) fn split_lines(s: &str) -> (r: Vec<String>)
    ensures
        texts(r@) == text_lines(s@),
{
    s.lines().map(|l| l.to_string()).collect()
}

/// The texts in ascending order, written one after the other.
pub open spec fn sorted_concat(v: Seq<Seq<char>>) -> Seq<char> {
    joined(v.sort_by(text_order()), Seq::empty())
}

/// The texts of `v` in ascending order, written one after the other.
pub fn concat_sorted(v: Vec<String>) -> (r: String)
    ensures
        r@ == sorted_concat(texts(v@)),
{
    let ghost before = texts(v@);
    let s = sorted_texts(v);
    proof {
        lemma_text_order_total();
        before.lemma_sort_by_ensures(text_order());
        vstd::seq_lib::lemma_sorted_unique(texts(s@), before.sort_by(text_order()), text_order());
    }
    let sep = "";
    proof {
        reveal_strlit("");
        assert(sep@ =~= Seq::<char>::empty());
    }
    join_with(&s, sep)
}

} // verus!
