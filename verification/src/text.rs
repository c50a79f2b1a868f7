use vstd::prelude::*;

verus! {

/// What `str::to_lowercase` gives back for a text, by its characters.
pub uninterp spec fn lowercase(text: Seq<char>) -> Seq<char>;

/// `needle` occurs in `hay` as a run of consecutive characters (the empty
/// text occurs in every text).
pub open spec fn occurs_in(needle: Seq<char>, hay: Seq<char>) -> bool {
    exists|start: int|
        0 <= start <= hay.len() - needle.len() && #[trigger] hay.skip(start).take(
            needle.len() as int,
        ) == needle
}

/// `needle` occurs in `hay` exactly when some run `hay[start..end]` of
/// `needle`'s length equals it.
pub proof fn lemma_occurs_in_subrange(needle: Seq<char>, hay: Seq<char>)
    ensures
        occurs_in(needle, hay) <==> exists|start: int, end: int|
            end == start + needle.len() && 0 <= start && end <= hay.len() && #[trigger] hay.subrange(
                start,
                end,
            ) == needle,
{
    if occurs_in(needle, hay) {
        let start = choose|start: int|
            0 <= start <= hay.len() - needle.len() && #[trigger] hay.skip(start).take(
                needle.len() as int,
            ) == needle;
        assert(hay.subrange(start, start + needle.len()) =~= hay.skip(start).take(
            needle.len() as int,
        ));
    }
    if exists|start: int, end: int|
        end == start + needle.len() && 0 <= start && end <= hay.len() && #[trigger] hay.subrange(
            start,
            end,
        ) == needle {
        let (start, end) = choose|start: int, end: int|
            end == start + needle.len() && 0 <= start && end <= hay.len() && #[trigger] hay.subrange(
                start,
                end,
            ) == needle;
        assert(hay.subrange(start, end) =~= hay.skip(start).take(needle.len() as int));
    }
}

/// `a` comes no later than `b` in the lexicographic order of their
/// characters' code points.
pub open spec fn text_le(a: Seq<char>, b: Seq<char>) -> bool
    decreases a.len(),
{
    if a.len() == 0 {
        true
    } else if b.len() == 0 {
        false
    } else if a[0] != b[0] {
        a[0] < b[0]
    } else {
        text_le(a.drop_first(), b.drop_first())
    }
}

/// Every text comes no later than itself.
pub proof fn lemma_text_le_reflexive(a: Seq<char>)
    ensures
        text_le(a, a),
    decreases a.len(),
{
    if a.len() > 0 {
        lemma_text_le_reflexive(a.drop_first());
    }
}

/// Of two texts, one comes no later than the other.
pub proof fn lemma_text_le_total(a: Seq<char>, b: Seq<char>)
    ensures
        text_le(a, b) || text_le(b, a),
    decreases a.len(),
{
    if a.len() > 0 && b.len() > 0 {
        if a[0] == b[0] {
            lemma_text_le_total(a.drop_first(), b.drop_first());
        } else {
            assert(a[0] < b[0] || b[0] < a[0]);
        }
    }
}

/// Texts that come no later than each other are the same text.
pub proof fn lemma_text_le_antisymmetric(a: Seq<char>, b: Seq<char>)
    requires
        text_le(a, b),
        text_le(b, a),
    ensures
        a == b,
    decreases a.len(),
{
    if a.len() > 0 && b.len() > 0 {
        lemma_text_le_antisymmetric(a.drop_first(), b.drop_first());
        assert(a =~= seq![a[0]] + a.drop_first());
        assert(b =~= seq![b[0]] + b.drop_first());
    } else {
        assert(a =~= b);
    }
}

/// The order of texts is transitive.
pub proof fn lemma_text_le_transitive(a: Seq<char>, b: Seq<char>, c: Seq<char>)
    requires
        text_le(a, b),
        text_le(b, c),
    ensures
        text_le(a, c),
    decreases a.len(),
{
    if a.len() > 0 && b.len() > 0 && c.len() > 0 && a[0] == b[0] && b[0] == c[0] {
        lemma_text_le_transitive(a.drop_first(), b.drop_first(), c.drop_first());
    }
}

/// Calls `str::to_lowercase`: the text in lower case, named by `lowercase`.
/// The empty text lowers to the empty text.
#[verifier::external_body]
pub(crate) fn to_lowercase(text: &str) -> (lower: String)
    ensures
        lower@ == lowercase(text@),
        text@.len() == 0 ==> lower@.len() == 0,
{
    text.to_lowercase()
}

/// The characters of `text`, in order.
fn chars_of(text: &str) -> (chars: Vec<char>)
    ensures
        chars@ == text@,
{
    let mut chars: Vec<char> = Vec::new();
    for c in it: text.chars()
        invariant
            it.seq() == text@,
            chars@ == text@.take(it.index()),
    {
        chars.push(c);
    }
    assert(text@.take(text@.len() as int) =~= text@);
    chars
}

/// Whether `needle` occurs in `hay`, found by trying every start.
pub fn contains_text(hay: &str, needle: &str) -> (found: bool)
    ensures
        found == occurs_in(needle@, hay@),
{
    let h = chars_of(hay);
    let n = chars_of(needle);
    if n.len() > h.len() {
        return false;
    }
    let last_start = h.len() - n.len();
    let mut start: usize = 0;
    while start <= last_start
        invariant
            h@ == hay@,
            n@ == needle@,
            n.len() <= h.len(),
            last_start == h.len() - n.len(),
            start <= last_start + 1,
            forall|s: int|
                0 <= s < start ==> #[trigger] hay@.skip(s).take(needle@.len() as int) != needle@,
        decreases last_start + 1 - start,
    {
        let mut j: usize = 0;
        let mut same = true;
        while same && j < n.len()
            invariant
                h@ == hay@,
                n@ == needle@,
                start + n.len() <= h.len(),
                j <= n.len(),
                same ==> forall|k: int| 0 <= k < j ==> hay@[start + k] == needle@[k],
                !same ==> j < n.len() && hay@[start + j] != needle@[j as int],
            decreases (if same { n.len() - j + 1 } else { 0 }),
        {
            if h[start + j] == n[j] {
                j = j + 1;
            } else {
                same = false;
            }
        }
        let ghost window = hay@.skip(start as int).take(needle@.len() as int);
        if same {
            assert(window =~= needle@);
            return true;
        }
        assert(window[j as int] == hay@[start + j]);
        start = start + 1;
    }
    assert forall|s: int|
        0 <= s <= hay@.len() - needle@.len() implies #[trigger] hay@.skip(s).take(
            needle@.len() as int,
        ) != needle@ by {}
    false
}

/// Whether `a` comes no later than `b`: the first differing character
/// decides, and a prefix comes first.
pub fn text_le_exec(a: &str, b: &str) -> (le: bool)
    ensures
        le == text_le(a@, b@),
{
    let xs = chars_of(a);
    let ys = chars_of(b);
    let mut i: usize = 0;
    assert(a@.skip(0) =~= a@);
    assert(b@.skip(0) =~= b@);
    while i < xs.len() && i < ys.len() && xs[i] == ys[i]
        invariant
            xs@ == a@,
            ys@ == b@,
            i <= xs.len(),
            i <= ys.len(),
            text_le(a@, b@) == text_le(a@.skip(i as int), b@.skip(i as int)),
        decreases xs.len() - i,
    {
        assert(a@.skip(i as int).drop_first() =~= a@.skip(i + 1));
        assert(b@.skip(i as int).drop_first() =~= b@.skip(i + 1));
        i = i + 1;
    }
    if i == xs.len() {
        true
    } else if i == ys.len() {
        false
    } else {
        assert(a@.skip(i as int)[0] == xs@[i as int]);
        assert(b@.skip(i as int)[0] == ys@[i as int]);
        xs[i] < ys[i]
    }
}

} // verus!
