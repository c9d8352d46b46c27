//! Matching image file names against an artist name.
use vstd::prelude::*;

verus! {

/// ASCII lower-casing of one character, as a code point.
pub open spec fn fold_char(c: char) -> int {
    if 'A' <= c && c <= 'Z' {
        (c as u32) + 32
    } else {
        c as u32 as int
    }
}

/// `a` and `b` are equal once ASCII letters are lower-cased.
pub open spec fn eq_ignore_ascii_case(a: Seq<char>, b: Seq<char>) -> bool {
    &&& a.len() == b.len()
    &&& forall|i: int| 0 <= i < a.len() ==> #[trigger] fold_char(a[i]) == fold_char(b[i])
}

/// Index of the last `'.'` in `s`, or -1 where there is none.
pub open spec fn last_dot(s: Seq<char>) -> int
    decreases s.len(),
{
    if s.len() == 0 {
        -1
    } else if s.last() == '.' {
        s.len() - 1
    } else {
        last_dot(s.drop_last())
    }
}

/// The stem of a file name: what precedes its last dot, where that dot is not
/// the first character; the whole name otherwise (and for `..`).
pub open spec fn file_stem(name: Seq<char>) -> Seq<char> {
    if name == seq!['.', '.'] || last_dot(name) <= 0 {
        name
    } else {
        name.take(last_dot(name))
    }
}

/// The extension of a file name: what follows the dot that ends its stem.
pub open spec fn file_extension(name: Seq<char>) -> Option<Seq<char>> {
    if name == seq!['.', '.'] || last_dot(name) <= 0 {
        None
    } else {
        Some(name.skip(last_dot(name) + 1))
    }
}

/// The extensions of the images that can be chosen (compared case-sensitively).
pub open spec fn is_image_extension(ext: Option<Seq<char>>) -> bool {
    match ext {
        Some(e) => e == seq!['p', 'n', 'g'] || e == seq!['j', 'p', 'g'] || e == seq![
            'j',
            'p',
            'e',
            'g',
        ] || e == seq!['g', 'i', 'f'],
        None => false,
    }
}

/// The file `name` is an image whose stem is `artist`, ignoring ASCII case.
pub open spec fn name_matches(name: Seq<char>, artist: Seq<char>) -> bool {
    is_image_extension(file_extension(name)) && eq_ignore_ascii_case(file_stem(name), artist)
}

/// `i` is the first position of `names` that matches `artist`.
pub open spec fn is_first_match(names: Seq<Seq<char>>, artist: Seq<char>, i: int) -> bool {
    &&& 0 <= i < names.len()
    &&& name_matches(names[i], artist)
    &&& forall|j: int| 0 <= j < i ==> !name_matches(#[trigger] names[j], artist)
}

/// Where the first match of `artist` among `names` stands, if any.
pub open spec fn first_match(names: Seq<Seq<char>>, artist: Seq<char>) -> Option<int> {
    if exists|i: int| is_first_match(names, artist, i) {
        Some(choose|i: int| is_first_match(names, artist, i))
    } else {
        None
    }
}

/// The file names of `names` as sequences of characters.
pub open spec fn names_view(names: Seq<String>) -> Seq<Seq<char>> {
    names.map_values(|s: String| s@)
}

proof fn lemma_last_dot_bounds(s: Seq<char>)
    ensures
        -1 <= last_dot(s) < s.len(),
        last_dot(s) >= 0 ==> s[last_dot(s)] == '.',
        forall|k: int| last_dot(s) < k < s.len() ==> s[k] != '.',
    decreases s.len(),
{
    if s.len() > 0 && s.last() != '.' {
        lemma_last_dot_bounds(s.drop_last());
        assert forall|k: int| last_dot(s) < k < s.len() implies s[k] != '.' by {
            if k < s.len() - 1 {
                assert(s[k] == s.drop_last()[k]);
            }
        }
    }
}

proof fn lemma_first_match_unique(names: Seq<Seq<char>>, artist: Seq<char>, i: int)
    requires
        is_first_match(names, artist, i),
    ensures
        first_match(names, artist) == Some(i),
{
    let k = choose|k: int| is_first_match(names, artist, k);
    assert(is_first_match(names, artist, k));
    if k < i {
        assert(!name_matches(names[k], artist));
    } else if i < k {
        assert(!name_matches(names[i], artist));
    }
}

/// Where some name matches, the first match stands at or before it.
pub proof fn lemma_match_found(names: Seq<Seq<char>>, artist: Seq<char>, i: int)
    requires
        0 <= i < names.len(),
        name_matches(names[i], artist),
    ensures
        first_match(names, artist) matches Some(j) && 0 <= j <= i && name_matches(
            names[j],
            artist,
        ),
    decreases i,
{
    if forall|j: int| 0 <= j < i ==> !name_matches(#[trigger] names[j], artist) {
        lemma_first_match_unique(names, artist, i);
    } else {
        let j = choose|j: int| 0 <= j < i && !!name_matches(#[trigger] names[j], artist);
        lemma_match_found(names, artist, j);
    }
}

/// A file named exactly `<artist>.<ext>`, with an allowed extension and in
/// any casing, is found: the match returned stands at or before it.
pub proof fn lemma_named_image_found(
    names: Seq<Seq<char>>,
    artist: Seq<char>,
    i: int,
    stem: Seq<char>,
    ext: Seq<char>,
)
    requires
        0 <= i < names.len(),
        names[i] == stem + seq!['.'] + ext,
        eq_ignore_ascii_case(stem, artist),
        is_image_extension(Some(ext)),
        artist.len() > 0,
    ensures
        first_match(names, artist) matches Some(j) && 0 <= j <= i && name_matches(
            names[j],
            artist,
        ),
{
    let n = names[i];
    let k = stem.len() as int;
    lemma_last_dot_bounds(n);
    assert(n[k] == '.');
    assert forall|m: int| 0 <= m < ext.len() implies ext[m] != '.' by {}
    let l = last_dot(n);
    if l > k {
        assert(n[l] == ext[l - k - 1]);
    }
    assert(l == k);
    assert(n.take(k) =~= stem);
    assert(n.skip(k + 1) =~= ext);
    assert(n.len() != 2);
    assert(name_matches(n, artist));
    lemma_match_found(names, artist, i);
}

/// Where no file stem equals the artist ignoring ASCII case, nothing is found.
pub proof fn lemma_no_stem_not_found(names: Seq<Seq<char>>, artist: Seq<char>)
    requires
        forall|i: int|
            0 <= i < names.len() ==> !eq_ignore_ascii_case(#[trigger] file_stem(names[i]), artist),
    ensures
        first_match(names, artist) is None,
{
    if let Some(j) = first_match(names, artist) {
        assert(is_first_match(names, artist, j));
        assert(!eq_ignore_ascii_case(file_stem(names[j]), artist));
    }
}

/// A name found always carries one of the image extensions.
pub proof fn lemma_found_is_image(names: Seq<Seq<char>>, artist: Seq<char>)
    ensures
        first_match(names, artist) matches Some(j) ==> is_image_extension(
            file_extension(names[j]),
        ),
{
    if let Some(j) = first_match(names, artist) {
        assert(is_first_match(names, artist, j));
    }
}

/// Renaming a file by changing only the letter case of its stem, keeping its
/// extension and its place in the walk, changes neither whether it matches nor
/// what is found.
pub proof fn lemma_stem_case_irrelevant(
    names: Seq<Seq<char>>,
    artist: Seq<char>,
    k: int,
    renamed: Seq<char>,
)
    requires
        0 <= k < names.len(),
        file_extension(renamed) == file_extension(names[k]),
        eq_ignore_ascii_case(file_stem(renamed), file_stem(names[k])),
    ensures
        name_matches(renamed, artist) == name_matches(names[k], artist),
        first_match(names.update(k, renamed), artist) == first_match(names, artist),
{
    let a = file_stem(renamed);
    let b = file_stem(names[k]);
    if eq_ignore_ascii_case(b, artist) {
        assert forall|i: int| 0 <= i < a.len() implies #[trigger] fold_char(a[i]) == fold_char(
            artist[i],
        ) by {
            assert(fold_char(a[i]) == fold_char(b[i]));
        }
    }
    if eq_ignore_ascii_case(a, artist) {
        assert forall|i: int| 0 <= i < b.len() implies #[trigger] fold_char(b[i]) == fold_char(
            artist[i],
        ) by {
            assert(fold_char(a[i]) == fold_char(b[i]));
        }
    }
    let renamed_names = names.update(k, renamed);
    assert forall|i: int| 0 <= i < names.len() implies #[trigger] name_matches(
        renamed_names[i],
        artist,
    ) == name_matches(names[i], artist) by {}
    if let Some(j) = first_match(names, artist) {
        assert(is_first_match(names, artist, j));
        assert(is_first_match(renamed_names, artist, j));
        lemma_first_match_unique(renamed_names, artist, j);
    } else if let Some(j) = first_match(renamed_names, artist) {
        assert(is_first_match(renamed_names, artist, j));
        assert forall|i: int| 0 <= i < j implies !name_matches(#[trigger] names[i], artist) by {
            assert(!name_matches(renamed_names[i], artist));
        }
        assert(is_first_match(names, artist, j));
        lemma_first_match_unique(names, artist, j);
    }
}

fn ascii_fold(c: char) -> (r: u32)
    ensures
        r as int == fold_char(c),
{
    if 'A' <= c && c <= 'Z' {
        (c as u32) + 32
    } else {
        c as u32
    }
}

/// Position of the last dot in `s`, or `None`.
fn find_last_dot(s: &str) -> (r: Option<usize>)
    ensures
        match r {
            Some(i) => i as int == last_dot(s@),
            None => last_dot(s@) == -1,
        },
{
    let n = s.unicode_len();
    let mut i: usize = n;
    assert(s@.take(n as int) =~= s@);
    while i > 0
        invariant
            i <= n == s@.len(),
            last_dot(s@.take(i as int)) == last_dot(s@),
        decreases i,
    {
        let c = s.get_char(i - 1);
        if c == '.' {
            return Some(i - 1);
        }
        assert(s@.take(i as int).drop_last() =~= s@.take(i - 1));
        i = i - 1;
    }
    assert(s@.take(0) =~= Seq::<char>::empty());
    None
}

/// Whether the characters `s[from..to]` equal `t` once ASCII letters are
/// lower-cased.
fn range_eq_ignore_ascii_case(s: &str, from: usize, to: usize, t: &str) -> (r: bool)
    requires
        from <= to <= s@.len(),
    ensures
        r == eq_ignore_ascii_case(s@.subrange(from as int, to as int), t@),
{
    let ghost a = s@.subrange(from as int, to as int);
    let m = t.unicode_len();
    if to - from != m {
        return false;
    }
    let mut k: usize = 0;
    while k < m
        invariant
            k <= m == t@.len() == to - from,
            from <= to <= s@.len(),
            a == s@.subrange(from as int, to as int),
            forall|j: int| 0 <= j < k ==> #[trigger] fold_char(a[j]) == fold_char(t@[j]),
        decreases m - k,
    {
        let c = s.get_char(from + k);
        let d = t.get_char(k);
        if ascii_fold(c) != ascii_fold(d) {
            assert(fold_char(a[k as int]) != fold_char(t@[k as int]));
            return false;
        }
        k = k + 1;
    }
    true
}

/// Whether an extension is one of `png`, `jpg`, `jpeg`, `gif`.
pub fn is_image(ext: Option<&str>) -> (r: bool)
    ensures
        r == is_image_extension(
            match ext {
                Some(e) => Some(e@),
                None => None,
            },
        ),
{
    match ext {
        Some(e) => {
            let n = e.unicode_len();
            if n == 3 {
                let (a, b, c) = (e.get_char(0), e.get_char(1), e.get_char(2));
                assert(e@ =~= seq![a, b, c]);
                (a == 'p' && b == 'n' && c == 'g') || (a == 'j' && b == 'p' && c == 'g') || (a
                    == 'g' && b == 'i' && c == 'f')
            } else if n == 4 {
                let (a, b, c, d) = (e.get_char(0), e.get_char(1), e.get_char(2), e.get_char(3));
                assert(e@ =~= seq![a, b, c, d]);
                a == 'j' && b == 'p' && c == 'e' && d == 'g'
            } else {
                false
            }
        },
        None => false,
    }
}

/// Whether the file `name` is an image whose stem equals `artist` ignoring
/// ASCII case.
pub fn matches_artist(name: &str, artist: &str) -> (r: bool)
    ensures
        r == name_matches(name@, artist@),
{
    let n = name.unicode_len();
    let dot = find_last_dot(name);
    proof {
        lemma_last_dot_bounds(name@);
    }
    let is_dotdot = n == 2 && name.get_char(0) == '.' && name.get_char(1) == '.';
    proof {
        if n == 2 {
            assert(is_dotdot == (name@ =~= seq!['.', '.']));
        } else {
            assert(name@.len() != seq!['.', '.'].len());
        }
    }
    match dot {
        Some(d) => {
            if is_dotdot || d == 0 {
                false
            } else {
                let ext = name.substring_char(d + 1, n);
                assert(ext@ =~= name@.skip(d + 1));
                if !is_image(Some(ext)) {
                    return false;
                }
                assert(name@.take(d as int) =~= name@.subrange(0, d as int));
                range_eq_ignore_ascii_case(name, 0, d, artist)
            }
        },
        None => false,
    }
}

/// The position of the first name in `names` that is an image whose stem is
/// `artist`, ignoring ASCII case; `None` where no name is.
pub fn find_match(names: &Vec<String>, artist: &str) -> (r: Option<usize>)
    ensures
        r matches Some(i) ==> first_match(names_view(names@), artist@) == Some(i as int),
        r is None ==> first_match(names_view(names@), artist@) is None,
        r is None <==> forall|i: int|
            0 <= i < names@.len() ==> !name_matches(#[trigger] names@[i]@, artist@),
{
    let ghost v = names_view(names@);
    let mut i: usize = 0;
    while i < names.len()
        invariant
            i <= names@.len(),
            v == names_view(names@),
            v.len() == names@.len(),
            forall|j: int| 0 <= j < i ==> !name_matches(#[trigger] v[j], artist@),
        decreases names@.len() - i,
    {
        if matches_artist(&names[i], artist) {
            proof {
                lemma_first_match_unique(v, artist@, i as int);
            }
            return Some(i);
        }
        i = i + 1;
    }
    proof {
        if exists|k: int| is_first_match(v, artist@, k) {
            let k = choose|k: int| is_first_match(v, artist@, k);
            assert(!name_matches(v[k], artist@));
        }
        assert forall|k: int| 0 <= k < names@.len() implies !name_matches(
            #[trigger] names@[k]@,
            artist@,
        ) by {
            assert(v[k] == names@[k]@);
        }
    }
    None
}

} // verus!
