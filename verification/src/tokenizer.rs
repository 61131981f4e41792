//! Text tokenizer with stopword filtering and optional stemming.

use vstd::hash_set::StringHashSet;
use vstd::prelude::*;
use vstd::utf8::encode_utf8;
use crate::order::{str_lt, word_lt};
use crate::text::{
    chars_of, lines_of, lowercase_of, split_lines, string_from_chars, to_lowercase, trim, trimmed,
};

verus! {

broadcast use vstd::string::group_string_axioms;

/// Runs of ASCII letters: the words of a text.
pub const WORD_PATTERN: &'static str = "[a-zA-Z]+";

/// Contraction suffixes (n't, 't, 's, 'd, 'm, 're, 'll, 've) at the end of a
/// word. They all expand to stop words, so they are removed.
pub const CONTRACTION_PATTERN: &'static str = r"(?i)(n['']t|[''][tsdm]|['']re|['']ll|['']ve)\b";

/// Whether `regex::Regex::new` accepts `pattern`.
pub uninterp spec fn regex_compiles(pattern: Seq<char>) -> bool;

/// What `Regex::replace_all` returns for the regex of `pattern` on `text`.
pub uninterp spec fn regex_replace_all(
    pattern: Seq<char>,
    text: Seq<char>,
    replacement: Seq<char>,
) -> Seq<char>;

/// The texts of the matches that `Regex::find_iter` yields for the regex of
/// `pattern` on `text`, in order.
pub uninterp spec fn regex_find_all(pattern: Seq<char>, text: Seq<char>) -> Seq<Seq<char>>;

/// What the English Snowball stemmer of `rust_stemmers` makes of `word`.
pub uninterp spec fn english_stem(word: Seq<char>) -> Seq<char>;

/// Calls `regex::Regex::new(pattern)` and reports whether it succeeded; the
/// answer is named `regex_compiles`.
#[verifier::external_body]
fn pattern_compiles(pattern: &str) -> (r: bool)
    ensures
        r == regex_compiles(pattern@),
{
    regex::Regex::new(pattern).is_ok()
}

/// Compiles `pattern` with `regex::Regex::new` and calls `replace_all` on
/// `text`. The result is `None` exactly when the pattern does not compile;
/// otherwise it is named `regex_replace_all`.
#[verifier::external_body]
fn replace_all_matches(pattern: &str, text: &str, replacement: &str) -> (r: Option<String>)
    ensures
        (r is Some) == regex_compiles(pattern@),
        r matches Some(s) ==> s@ == regex_replace_all(pattern@, text@, replacement@),
{
    match regex::Regex::new(pattern) {
        Ok(re) => Some(re.replace_all(text, replacement).into_owned()),
        Err(_) => None,
    }
}

/// Compiles `pattern` with `regex::Regex::new` and collects the texts of the
/// matches of `find_iter` on `text`. The result is `None` exactly when the
/// pattern does not compile; otherwise it is named `regex_find_all`.
#[verifier::external_body]
fn find_all_matches(pattern: &str, text: &str) -> (r: Option<Vec<String>>)
    ensures
        (r is Some) == regex_compiles(pattern@),
        r matches Some(v) ==> v.deep_view() == regex_find_all(pattern@, text@),
{
    match regex::Regex::new(pattern) {
        Ok(re) => {
            let mut v = Vec::new();
            for m in re.find_iter(text) {
                v.push(m.as_str().to_string());
            }
            Some(v)
        },
        Err(_) => None,
    }
}

/// Calls `Stemmer::stem` of the English stemmer of `rust_stemmers`; the
/// result is named `english_stem`.
#[verifier::external_body]
fn stem_english(word: &str) -> (r: String)
    ensures
        r@ == english_stem(word@),
{
    rust_stemmers::Stemmer::create(rust_stemmers::Algorithm::English).stem(word).into_owned()
}

/// A word with its source article info
#[derive(Debug, Clone)]
pub struct TokenizedWord {
    pub word: String,
    pub article_date: String,
    pub article_title: String,
    pub article_image: Option<String>,
}

/// Why a tokenizer could not be made.
#[derive(Debug, Clone, Copy, PartialEq, Eq, Structural)]
pub enum TokenizerError {
    /// Stopwords are to be filtered but no stopword list was given.
    StopwordsPathMissing,
    /// One of the tokenizer's regular expressions does not compile.
    InvalidPattern,
}

impl TokenizerError {
    /// A description of the error for people.
    pub fn message(&self) -> (r: &'static str)
        ensures
            r@ == match self {
                TokenizerError::StopwordsPathMissing => "stopwords_path must be set when filter_stopwords is enabled"@,
                TokenizerError::InvalidPattern => "invalid tokenizer pattern"@,
            },
    {
        match self {
            TokenizerError::StopwordsPathMissing => "stopwords_path must be set when filter_stopwords is enabled",
            TokenizerError::InvalidPattern => "invalid tokenizer pattern",
        }
    }
}

/// The entries of a stopword file made of the lines `ls`: each line trimmed
/// and lowercased, without empty lines and comments (`#`).
pub open spec fn stopword_entries_of_lines(ls: Seq<Seq<char>>) -> Seq<Seq<char>>
    decreases ls.len(),
{
    if ls.len() == 0 {
        Seq::empty()
    } else {
        let rest = stopword_entries_of_lines(ls.drop_last());
        let e = lowercase_of(trimmed(ls.last()));
        if e.len() > 0 && e[0] != '#' {
            rest.push(e)
        } else {
            rest
        }
    }
}

/// The entries of a stopword file whose text is `content`.
pub open spec fn stopword_entries(content: Seq<char>) -> Seq<Seq<char>> {
    stopword_entries_of_lines(lines_of(content))
}

/// The stopwords listed in a stopword file whose text is `content`.
pub fn parse_stopwords(content: &str) -> (r: Vec<String>)
    ensures
        r.deep_view() == stopword_entries(content@),
{
    let lines = split_lines(content);
    let ghost ls = lines.deep_view();
    let mut out: Vec<String> = Vec::new();
    let mut i: usize = 0;
    assert(ls.take(0) =~= Seq::<Seq<char>>::empty());
    assert(out.deep_view() =~= Seq::<Seq<char>>::empty());
    while i < lines.len()
        invariant
            ls == lines.deep_view(),
            ls == lines_of(content@),
            i <= lines@.len(),
            out.deep_view() == stopword_entries_of_lines(ls.take(i as int)),
        decreases lines@.len() - i,
    {
        assert(ls.take(i + 1).drop_last() =~= ls.take(i as int));
        assert(ls.take(i + 1).last() == lines@[i as int]@);
        let t = trim(lines[i].as_str());
        let e = to_lowercase(t.as_str());
        let cs = chars_of(e.as_str());
        if cs.len() > 0 && cs[0] != '#' {
            let ghost before = out.deep_view();
            out.push(e);
            assert(out.deep_view() =~= before.push(cs@));
        }
        i = i + 1;
    }
    assert(ls.take(lines@.len() as int) =~= ls);
    out
}

/// `s` ends with `.txt`.
pub open spec fn ends_with_txt(s: Seq<char>) -> bool {
    &&& s.len() >= 4
    &&& s[s.len() - 4] == '.'
    &&& s[s.len() - 3] == 't'
    &&& s[s.len() - 2] == 'x'
    &&& s[s.len() - 1] == 't'
}

/// `s` with every trailing `.txt` removed, as `trim_end_matches(".txt")` gives it.
pub open spec fn without_txt_suffixes(s: Seq<char>) -> Seq<char>
    decreases s.len(),
{
    if ends_with_txt(s) {
        without_txt_suffixes(s.take(s.len() - 4))
    } else {
        s
    }
}

/// The position of the first `c` in `s`, or the length of `s` if there is none.
pub open spec fn position_of(s: Seq<char>, c: char) -> int
    decreases s.len(),
{
    if s.len() == 0 {
        0
    } else if s[0] == c {
        0
    } else {
        1 + position_of(s.drop_first(), c)
    }
}

/// The title made of a slug: dashes become spaces, and each word gets an
/// upper-case first letter, words joined by single spaces.
pub open spec fn title_of_slug(slug: Seq<char>) -> Seq<char> {
    crate::text::joined(
        crate::text::words_of(crate::text::replace_char(slug, '-', ' ')).map_values(
            |w: Seq<char>| crate::text::capitalized(w),
        ),
        seq![' '],
    )
}

/// The date and title of an article file named like
/// `2024-01-15_article-title.txt`; a name without `_` is all title.
pub open spec fn parsed_file_name(file_name: Seq<char>) -> (Seq<char>, Seq<char>) {
    let name = without_txt_suffixes(file_name);
    let i = position_of(name, '_');
    if i < name.len() {
        (name.take(i), title_of_slug(name.skip(i + 1)))
    } else {
        (Seq::empty(), crate::text::replace_char(name, '-', ' '))
    }
}

proof fn lemma_position_of_bounds(s: Seq<char>, c: char)
    ensures
        0 <= position_of(s, c) <= s.len(),
        position_of(s, c) < s.len() ==> s[position_of(s, c)] == c,
        forall|j: int| 0 <= j < position_of(s, c) ==> s[j] != c,
    decreases s.len(),
{
    if s.len() > 0 && s[0] != c {
        lemma_position_of_bounds(s.drop_first(), c);
        assert forall|j: int| 0 <= j < position_of(s, c) implies s[j] != c by {
            if j > 0 {
                assert(s[j] == s.drop_first()[j - 1]);
            }
        }
    }
}

/// The name of an article file without its `.txt` endings.
pub fn article_base_name(file_name: &str) -> (r: String)
    ensures
        r@ == without_txt_suffixes(file_name@),
{
    let cs = chars_of(file_name);
    let end = base_name_end(&cs);
    string_from_chars(&cs, 0, end)
}

fn base_name_end(cs: &Vec<char>) -> (end: usize)
    ensures
        end <= cs@.len(),
        cs@.take(end as int) == without_txt_suffixes(cs@),
{
    let mut end = cs.len();
    assert(cs@.take(end as int) =~= cs@);
    while end >= 4 && cs[end - 4] == '.' && cs[end - 3] == 't' && cs[end - 2] == 'x' && cs[end - 1] == 't'
        invariant
            end <= cs@.len(),
            without_txt_suffixes(cs@.take(end as int)) == without_txt_suffixes(cs@),
        decreases end,
    {
        assert(cs@.take(end as int).take(end - 4) =~= cs@.take(end - 4));
        end = end - 4;
    }
    end
}

/// Parse filename like "2024-01-15_article-title.txt" into (date, title)
pub fn parse_filename(filename: &str) -> (r: (String, String))
    ensures
        (r.0@, r.1@) == parsed_file_name(filename@),
{
    let cs = chars_of(filename);
    let end = base_name_end(&cs);
    let ghost name = cs@.take(end as int);
    let mut i: usize = 0;
    while i < end && cs[i] != '_'
        invariant
            i <= end <= cs@.len(),
            name == cs@.take(end as int),
            forall|j: int| 0 <= j < i ==> name[j] != '_',
        decreases end - i,
    {
        i = i + 1;
    }
    proof {
        lemma_position_of_bounds(name, '_');
        let p = position_of(name, '_');
        if p < i {
            assert(name[p] == '_');
        }
        if i < end {
            assert(name[i as int] == '_');
        }
        assert(p == i);
    }
    if i < end {
        let date = string_from_chars(&cs, 0, i);
        let slug = string_from_chars(&cs, i + 1, end);
        let slug_chars = chars_of(slug.as_str());
        let spaced = crate::text::replace_chars(&slug_chars, '-', ' ');
        let words = crate::text::split_whitespace(&spaced);
        let mut titled: Vec<String> = Vec::new();
        let mut k: usize = 0;
        while k < words.len()
            invariant
                k <= words@.len(),
                titled.deep_view() == words.deep_view().take(k as int).map_values(
                    |w: Seq<char>| crate::text::capitalized(w),
                ),
            decreases words@.len() - k,
        {
            let t = crate::text::capitalize(words[k].as_str());
            let ghost before = titled.deep_view();
            titled.push(t);
            assert(titled.deep_view() =~= before.push(t@));
            assert(words.deep_view()[k as int] == words@[k as int]@);
            assert(titled.deep_view() =~= words.deep_view().take(k + 1).map_values(
                |w: Seq<char>| crate::text::capitalized(w),
            ));
            k = k + 1;
        }
        assert(words.deep_view().take(words@.len() as int) =~= words.deep_view());
        let title = crate::text::join_with_spaces(&titled);
        assert(name.skip(i + 1) =~= cs@.subrange(i + 1, end as int));
        assert(name.take(i as int) =~= cs@.subrange(0, i as int));
        (date, title)
    } else {
        let spaced = crate::text::replace_chars(&cs, '-', ' ');
        let title = string_from_chars(&spaced, 0, end);
        assert(spaced@.subrange(0, end as int) =~= crate::text::replace_char(name, '-', ' '));
        (String::new(), title)
    }
}

/// A directory entry of this name is an article: its extension is `txt`
/// (a name of just `.txt` has no extension).
pub open spec fn is_article_file(name: Seq<char>) -> bool {
    ends_with_txt(name) && name.len() > 4
}

/// The article files among `names`, in the order of `names`.
pub open spec fn article_files(names: Seq<Seq<char>>) -> Seq<Seq<char>>
    decreases names.len(),
{
    if names.len() == 0 {
        Seq::empty()
    } else {
        let rest = article_files(names.drop_last());
        if is_article_file(names.last()) {
            rest.push(names.last())
        } else {
            rest
        }
    }
}

/// `s` is in string order.
pub open spec fn names_sorted(s: Seq<Seq<char>>) -> bool {
    forall|i: int, j: int| 0 <= i < j < s.len() ==> !word_lt(#[trigger] s[j], #[trigger] s[i])
}

/// Whether a directory entry of this name is an article file.
pub fn is_article_file_name(name: &str) -> (r: bool)
    ensures
        r == is_article_file(name@),
{
    let cs = chars_of(name);
    let n = cs.len();
    n > 4 && cs[n - 4] == '.' && cs[n - 3] == 't' && cs[n - 2] == 'x' && cs[n - 1] == 't'
}

/// The article files among the directory entries `names`, sorted by name
/// (chronological order for dated names).
pub fn select_article_files(names: &Vec<String>) -> (r: Vec<String>)
    ensures
        names_sorted(r.deep_view()),
        r.deep_view().to_multiset() == article_files(names.deep_view()).to_multiset(),
{
    broadcast use vstd::seq_lib::group_to_multiset_ensures;

    let ghost ns = names.deep_view();
    let mut sorted: Vec<String> = Vec::new();
    let mut i: usize = 0;
    assert(ns.take(0) =~= Seq::<Seq<char>>::empty());
    assert(sorted.deep_view() =~= Seq::<Seq<char>>::empty());
    while i < names.len()
        invariant
            ns == names.deep_view(),
            i <= names@.len(),
            names_sorted(sorted.deep_view()),
            sorted.deep_view().to_multiset() == article_files(ns.take(i as int)).to_multiset(),
        decreases names@.len() - i,
    {
        assert(ns.take(i + 1).drop_last() =~= ns.take(i as int));
        assert(ns.take(i + 1).last() == names@[i as int]@);
        let name = &names[i];
        if is_article_file_name(name.as_str()) {
            let ghost sv = sorted.deep_view();
            let mut p: usize = 0;
            while p < sorted.len() && !str_lt(name.as_str(), sorted[p].as_str())
                invariant
                    p <= sorted@.len(),
                    sv == sorted.deep_view(),
                    forall|q: int| 0 <= q < p ==> !word_lt(name@, #[trigger] sv[q]),
                decreases sorted@.len() - p,
            {
                p = p + 1;
            }
            sorted.insert(p, name.clone());
            proof {
                let nv = sorted.deep_view();
                assert(nv =~= sv.insert(p as int, name@));
                vstd::seq_lib::to_multiset_insert(sv, p as int, name@);
                vstd::seq_lib::to_multiset_build(article_files(ns.take(i as int)), name@);
                assert forall|a: int, b: int| 0 <= a < b < nv.len() implies !word_lt(
                    #[trigger] nv[b],
                    #[trigger] nv[a],
                ) by {
                    if b == p {
                        assert(nv[a] == sv[a]);
                    } else if a == p {
                        assert(nv[b] == sv[b - 1]);
                        assert(p < sv.len());
                        assert(word_lt(name@, sv[p as int]));
                        if word_lt(sv[b - 1], name@) {
                            crate::order::lemma_word_lt_transitive(sv[b - 1], name@, sv[p as int]);
                            if b - 1 > p {
                                assert(!word_lt(sv[b - 1], sv[p as int]));
                            } else {
                                crate::order::lemma_word_lt_irreflexive(sv[p as int]);
                            }
                        }
                    } else {
                        let oa = if a < p { a } else { a - 1 };
                        let ob = if b < p { b } else { b - 1 };
                        assert(nv[a] == sv[oa]);
                        assert(nv[b] == sv[ob]);
                    }
                }
            }
        }
        i = i + 1;
    }
    assert(ns.take(names@.len() as int) =~= ns);
    sorted
}

/// The names of image files that go with an article file of base name
/// `base`, in the order they are tried.
pub open spec fn image_candidate_names(base: Seq<char>) -> Seq<Seq<char>> {
    seq![
        base + "."@ + "png"@,
        base + "."@ + "PNG"@,
        base + "."@ + "jpg"@,
        base + "."@ + "JPG"@,
        base + "."@ + "jpeg"@,
        base + "."@ + "JPEG"@,
        base + "."@ + "webp"@,
        base + "."@ + "WEBP"@,
        base + "."@ + "bmp"@,
        base + "."@ + "BMP"@,
        base + "."@ + "gif"@,
        base + "."@ + "GIF"@,
    ]
}

fn with_extension(base: &str, ext: &str) -> (r: String)
    ensures
        r@ == base@ + "."@ + ext@,
{
    let mut s = base.to_string();
    s.append(".");
    s.append(ext);
    s
}

/// The file names tried, in order, for the image of an article of base name
/// `base`: each image extension in lower case, then in upper case.
pub fn image_candidates(base: &str) -> (r: Vec<String>)
    ensures
        r.deep_view() == image_candidate_names(base@),
{
    let mut v: Vec<String> = Vec::new();
    v.push(with_extension(base, "png"));
    v.push(with_extension(base, "PNG"));
    v.push(with_extension(base, "jpg"));
    v.push(with_extension(base, "JPG"));
    v.push(with_extension(base, "jpeg"));
    v.push(with_extension(base, "JPEG"));
    v.push(with_extension(base, "webp"));
    v.push(with_extension(base, "WEBP"));
    v.push(with_extension(base, "bmp"));
    v.push(with_extension(base, "BMP"));
    v.push(with_extension(base, "gif"));
    v.push(with_extension(base, "GIF"));
    assert(v.deep_view() =~= image_candidate_names(base@));
    v
}

/// What a tokenizer keeps of its settings.
pub struct TokenizerModel {
    pub stopwords: Set<Seq<char>>,
    pub stemming: bool,
    pub min_word_length: usize,
    pub lowercase: bool,
}

impl TokenizerModel {
    /// A matched word is kept: it is long enough (in UTF-8 bytes) and its
    /// lowercase form is not a stopword.
    pub open spec fn keeps(self, w: Seq<char>) -> bool {
        &&& encode_utf8(w).len() >= self.min_word_length
        &&& !self.stopwords.contains(lowercase_of(w))
    }

    /// A kept word as it is emitted: stemmed if stemming is on.
    pub open spec fn finish(self, w: Seq<char>) -> Seq<char> {
        if self.stemming {
            english_stem(w)
        } else {
            w
        }
    }

    /// The tokens made of the matched words `ms`, in order.
    pub open spec fn select_tokens(self, ms: Seq<Seq<char>>) -> Seq<Seq<char>>
        decreases ms.len(),
    {
        if ms.len() == 0 {
            Seq::empty()
        } else {
            let rest = self.select_tokens(ms.drop_last());
            if self.keeps(ms.last()) {
                rest.push(self.finish(ms.last()))
            } else {
                rest
            }
        }
    }

    /// The text after lowercasing (if on) and removing contraction suffixes.
    pub open spec fn prepared_text(self, text: Seq<char>) -> Seq<char> {
        let lowered = if self.lowercase {
            lowercase_of(text)
        } else {
            text
        };
        regex_replace_all(CONTRACTION_PATTERN@, lowered, Seq::empty())
    }

    /// The tokens of `text`, in order.
    pub open spec fn tokens_of(self, text: Seq<char>) -> Seq<Seq<char>> {
        self.select_tokens(regex_find_all(WORD_PATTERN@, self.prepared_text(text)))
    }
}

/// The date of an article never holds an underscore: it is everything
/// before the first one.
pub proof fn lemma_article_date_has_no_underscore(file_name: Seq<char>)
    ensures
        !parsed_file_name(file_name).0.contains('_'),
{
    let name = without_txt_suffixes(file_name);
    lemma_position_of_bounds(name, '_');
    let date = parsed_file_name(file_name).0;
    if date.contains('_') {
        let j = choose|j: int| 0 <= j < date.len() && date[j] == '_';
        assert(name[j] == '_');
    }
}

impl TokenizerModel {
    /// Without stemming, every token is a matched word that is long enough
    /// and is not a stopword, and tokens keep the order of the matches.
    pub proof fn lemma_tokens_pass_filters(self, ms: Seq<Seq<char>>)
        requires
            !self.stemming,
        ensures
            forall|i: int|
                0 <= i < self.select_tokens(ms).len() ==> self.keeps(
                    #[trigger] self.select_tokens(ms)[i],
                ) && ms.contains(self.select_tokens(ms)[i]),
            self.select_tokens(ms).len() <= ms.len(),
        decreases ms.len(),
    {
        if ms.len() > 0 {
            self.lemma_tokens_pass_filters(ms.drop_last());
            let rest = self.select_tokens(ms.drop_last());
            assert forall|i: int|
                0 <= i < self.select_tokens(ms).len() implies self.keeps(
                #[trigger] self.select_tokens(ms)[i],
            ) && ms.contains(self.select_tokens(ms)[i]) by {
                if i < rest.len() {
                    let w = rest[i];
                    assert(ms.drop_last().contains(w));
                    let k = choose|k: int| 0 <= k < ms.drop_last().len() && ms.drop_last()[k] == w;
                    assert(ms[k] == w);
                } else {
                    assert(ms[ms.len() - 1] == ms.last());
                }
            }
        }
    }
}

impl TokenizerModel {
    /// The tokens are the matches that pass the filters, each as it is
    /// emitted, in the order of the matches: every kept match gives one
    /// token, whatever came before it.
    pub proof fn lemma_tokens_are_kept_matches(self, ms: Seq<Seq<char>>)
        ensures
            self.select_tokens(ms) == ms.filter(|w: Seq<char>| self.keeps(w)).map_values(
                |w: Seq<char>| self.finish(w),
            ),
        decreases ms.len(),
    {
        reveal_with_fuel(Seq::filter, 2);
        if ms.len() > 0 {
            self.lemma_tokens_are_kept_matches(ms.drop_last());
            let pred = |w: Seq<char>| self.keeps(w);
            let f = |w: Seq<char>| self.finish(w);
            let sub = ms.drop_last().filter(pred);
            assert(sub.push(ms.last()).map_values(f) =~= sub.map_values(f).push(f(ms.last())));
        }
    }

    /// Tokenizing two runs of matches one after the other gives the tokens
    /// of the first run followed by those of the second.
    pub proof fn lemma_tokens_of_concatenation(self, a: Seq<Seq<char>>, b: Seq<Seq<char>>)
        ensures
            self.select_tokens(a + b) == self.select_tokens(a) + self.select_tokens(b),
        decreases b.len(),
    {
        if b.len() == 0 {
            assert(a + b =~= a);
            assert(self.select_tokens(a) + self.select_tokens(b) =~= self.select_tokens(a));
        } else {
            self.lemma_tokens_of_concatenation(a, b.drop_last());
            assert((a + b).drop_last() =~= a + b.drop_last());
            assert((a + b).last() == b.last());
            let x = self.select_tokens(a);
            let y = self.select_tokens(b.drop_last());
            assert((x + y).push(self.finish(b.last())) =~= x + y.push(self.finish(b.last())));
        }
    }

    /// One match gives one token exactly when it passes the filters.
    pub proof fn lemma_tokens_of_one_match(self, w: Seq<char>)
        ensures
            self.select_tokens(seq![w]) == if self.keeps(w) {
                seq![self.finish(w)]
            } else {
                Seq::<Seq<char>>::empty()
            },
    {
        assert(seq![w].drop_last() =~= Seq::<Seq<char>>::empty());
        assert(seq![w].last() == w);
        assert(self.select_tokens(Seq::<Seq<char>>::empty()) == Seq::<Seq<char>>::empty());
        assert(Seq::<Seq<char>>::empty().push(self.finish(w)) =~= seq![self.finish(w)]);
    }
}

/// Text tokenizer with stopword filtering and optional stemming
pub struct Tokenizer {
    stopwords: StringHashSet,
    stemming: bool,
    min_word_length: usize,
    lowercase: bool,
}

impl View for Tokenizer {
    type V = TokenizerModel;

    closed spec fn view(&self) -> TokenizerModel {
        TokenizerModel {
            stopwords: self.stopwords@,
            stemming: self.stemming,
            min_word_length: self.min_word_length,
            lowercase: self.lowercase,
        }
    }
}

impl Tokenizer {
    /// Both patterns of the tokenizer compile: no tokenizer is made otherwise.
    #[verifier::type_invariant]
    spec fn patterns_compile(&self) -> bool {
        &&& regex_compiles(WORD_PATTERN@)
        &&& regex_compiles(CONTRACTION_PATTERN@)
    }

    /// A tokenizer. With `filter_stopwords`, `stopwords_text` is the text of
    /// the stopword file; without it, no word counts as a stopword.
    pub fn new(
        lowercase: bool,
        filter_stopwords: bool,
        enable_stemming: bool,
        min_word_length: usize,
        stopwords_text: Option<&str>,
    ) -> (r: Result<Tokenizer, TokenizerError>)
        ensures
            (r == Err::<Tokenizer, TokenizerError>(TokenizerError::StopwordsPathMissing)) == (
            filter_stopwords && stopwords_text is None),
            (r == Err::<Tokenizer, TokenizerError>(TokenizerError::InvalidPattern)) == (!(
            filter_stopwords && stopwords_text is None) && !(regex_compiles(WORD_PATTERN@)
                && regex_compiles(CONTRACTION_PATTERN@))),
            r matches Ok(t) ==> {
                &&& t@.stemming == enable_stemming
                &&& t@.min_word_length == min_word_length
                &&& t@.lowercase == lowercase
                &&& t@.stopwords == if filter_stopwords {
                    stopword_entries(stopwords_text->0@).to_set()
                } else {
                    Set::<Seq<char>>::empty()
                }
            },
    {
        let mut stopwords = StringHashSet::new();
        if filter_stopwords {
            match stopwords_text {
                Some(text) => {
                    let entries = parse_stopwords(text);
                    let ghost es = entries.deep_view();
                    let mut i: usize = 0;
                    while i < entries.len()
                        invariant
                            es == entries.deep_view(),
                            i <= entries@.len(),
                            stopwords@ == es.take(i as int).to_set(),
                        decreases entries@.len() - i,
                    {
                        stopwords.insert(entries[i].clone());
                        assert(es.take(i + 1) =~= es.take(i as int).push(entries@[i as int]@));
                        proof {
                            es.take(i as int).lemma_push_to_set_commute(entries@[i as int]@);
                        }
                        i = i + 1;
                    }
                    assert(es.take(entries@.len() as int) =~= es);
                },
                None => {
                    return Err(TokenizerError::StopwordsPathMissing);
                },
            }
        }
        if !pattern_compiles(WORD_PATTERN) || !pattern_compiles(CONTRACTION_PATTERN) {
            return Err(TokenizerError::InvalidPattern);
        }
        Ok(Tokenizer { stopwords, stemming: enable_stemming, min_word_length, lowercase })
    }

    /// The tokens made of the matched words `matches`: those long enough and
    /// not stopwords, stemmed if stemming is on.
    pub fn select_tokens(&self, matches: &Vec<String>) -> (r: Vec<String>)
        ensures
            r.deep_view() == self@.select_tokens(matches.deep_view()),
    {
        let ghost ms = matches.deep_view();
        let mut out: Vec<String> = Vec::new();
        let mut i: usize = 0;
        assert(ms.take(0) =~= Seq::<Seq<char>>::empty());
        assert(out.deep_view() =~= Seq::<Seq<char>>::empty());
        while i < matches.len()
            invariant
                ms == matches.deep_view(),
                i <= matches@.len(),
                out.deep_view() == self@.select_tokens(ms.take(i as int)),
            decreases matches@.len() - i,
        {
            let w = &matches[i];
            assert(ms.take(i + 1).drop_last() =~= ms.take(i as int));
            assert(ms.take(i + 1).last() == w@);
            let long_enough = w.as_str().as_bytes().len() >= self.min_word_length;
            if long_enough {
                let lower = to_lowercase(w.as_str());
                if !self.stopwords.contains(lower.as_str()) {
                    let token = if self.stemming {
                        stem_english(w.as_str())
                    } else {
                        w.clone()
                    };
                    let ghost before = out.deep_view();
                    out.push(token);
                    assert(out.deep_view() =~= before.push(token@));
                }
            }
            i = i + 1;
        }
        assert(ms.take(matches@.len() as int) =~= ms);
        out
    }

    /// Tokenize a string into words
    pub fn tokenize(&self, text: &str) -> (r: Vec<String>)
        ensures
            r.deep_view() == self@.tokens_of(text@),
    {
        proof {
            use_type_invariant(self);
        }
        let lowered = if self.lowercase {
            to_lowercase(text)
        } else {
            text.to_string()
        };
        proof {
            reveal_strlit("");
            assert(""@ == Seq::<char>::empty());
        }
        assert(lowered@ == (if self@.lowercase { lowercase_of(text@) } else { text@ }));
        // Strip contraction suffixes (they expand to stop words anyway)
        match replace_all_matches(CONTRACTION_PATTERN, lowered.as_str(), "") {
            Some(stripped) => match find_all_matches(WORD_PATTERN, stripped.as_str()) {
                Some(matches) => self.select_tokens(&matches),
                None => Vec::new(),
            },
            None => Vec::new(),
        }
    }

    /// The words of one article file, each with the date and title taken
    /// from the file name and the path of the article's image.
    pub fn tokenize_article(
        &self,
        file_name: &str,
        content: &str,
        image_path: &Option<String>,
    ) -> (r: Vec<TokenizedWord>)
        ensures
            r@.len() == self@.tokens_of(content@).len(),
            forall|i: int|
                0 <= i < r@.len() ==> {
                    &&& (#[trigger] r@[i]).word@ == self@.tokens_of(content@)[i]
                    &&& (r@[i].article_date@, r@[i].article_title@) == parsed_file_name(
                        file_name@,
                    )
                    &&& r@[i].article_image == *image_path
                },
    {
        let (date, title) = parse_filename(file_name);
        let words = self.tokenize(content);
        let ghost ts = words.deep_view();
        let mut out: Vec<TokenizedWord> = Vec::new();
        let mut i: usize = 0;
        while i < words.len()
            invariant
                ts == words.deep_view(),
                ts == self@.tokens_of(content@),
                (date@, title@) == parsed_file_name(file_name@),
                i <= words@.len(),
                out@.len() == i,
                forall|j: int|
                    0 <= j < i ==> {
                        &&& (#[trigger] out@[j]).word@ == ts[j]
                        &&& (out@[j].article_date@, out@[j].article_title@) == parsed_file_name(
                            file_name@,
                        )
                        &&& out@[j].article_image == *image_path
                    },
            decreases words@.len() - i,
        {
            let tw = TokenizedWord {
                word: words[i].clone(),
                article_date: date.clone(),
                article_title: title.clone(),
                article_image: crate::cloud::copy_string_option(image_path),
            };
            out.push(tw);
            i = i + 1;
        }
        out
    }
}

} // verus!
