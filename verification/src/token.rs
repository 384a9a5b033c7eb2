//! Characters, identifiers and tokens of the expression syntax.

use vstd::prelude::*;

verus! {

/// The ASCII white space characters; they separate tokens.
pub open spec fn is_space(c: char) -> bool {
    c == ' ' || c == '\t' || c == '\n' || c == '\x0C' || c == '\r'
}

/// The characters that end a word: white space and the two parentheses.
pub open spec fn is_delimiter(c: char) -> bool {
    is_space(c) || c == '(' || c == ')'
}

/// The characters of an SPDX `idstring`: letters, digits, `-` and `.`.
pub open spec fn is_idstring_char(c: char) -> bool {
    ('a' <= c && c <= 'z') || ('A' <= c && c <= 'Z') || ('0' <= c && c <= '9') || c == '-' || c
        == '.'
}

/// A non-empty run of `idstring` characters.
pub open spec fn is_idstring(w: Seq<char>) -> bool {
    w.len() > 0 && forall|k: int| 0 <= k < w.len() ==> is_idstring_char(#[trigger] w[k])
}

/// A license identifier: an `idstring`, optionally followed by one `+`.
/// The form `LicenseRef-` `idstring` is an `idstring` itself.
pub open spec fn is_license_id(w: Seq<char>) -> bool {
    is_idstring(w) || (w.len() > 0 && w.last() == '+' && is_idstring(w.drop_last()))
}

/// `w` reads `DocumentRef-` `idstring` `:LicenseRef-` `idstring`, the colon at index `k`.
pub open spec fn is_license_ref_at(w: Seq<char>, k: int) -> bool {
    &&& 12 <= k
    &&& k + 12 <= w.len()
    &&& w.subrange(0, 12) == "DocumentRef-"@
    &&& is_idstring(w.subrange(12, k))
    &&& w.subrange(k, k + 12) == ":LicenseRef-"@
    &&& is_idstring(w.subrange(k + 12, w.len() as int))
}

/// A reference into another document: `DocumentRef-` `idstring` `:LicenseRef-` `idstring`.
pub open spec fn is_license_ref(w: Seq<char>) -> bool {
    exists|k: int| is_license_ref_at(w, k)
}

/// The five reserved words, matched in exactly this case.
pub open spec fn is_reserved(w: Seq<char>) -> bool {
    w == "AND"@ || w == "OR"@ || w == "WITH"@ || w == "NONE"@ || w == "NOASSERTION"@
}

/// A word that may name a license or an exception. No list of known
/// licenses is consulted.
pub open spec fn is_identifier(w: Seq<char>) -> bool {
    !is_reserved(w) && (is_license_id(w) || is_license_ref(w))
}

/// A token of the expression syntax, as contracts speak of it.
pub enum SpecToken {
    Open,
    Close,
    And,
    Or,
    With,
    NoLicense,
    NoAssertion,
    Ident(Seq<char>),
    Invalid(Seq<char>),
}

impl SpecToken {
    /// The text a token is written as.
    pub open spec fn text(self) -> Seq<char> {
        match self {
            SpecToken::Open => "("@,
            SpecToken::Close => ")"@,
            SpecToken::And => "AND"@,
            SpecToken::Or => "OR"@,
            SpecToken::With => "WITH"@,
            SpecToken::NoLicense => "NONE"@,
            SpecToken::NoAssertion => "NOASSERTION"@,
            SpecToken::Ident(w) => w,
            SpecToken::Invalid(w) => w,
        }
    }
}

/// The token that a word stands for.
pub open spec fn classify(w: Seq<char>) -> SpecToken {
    if w == "AND"@ {
        SpecToken::And
    } else if w == "OR"@ {
        SpecToken::Or
    } else if w == "WITH"@ {
        SpecToken::With
    } else if w == "NONE"@ {
        SpecToken::NoLicense
    } else if w == "NOASSERTION"@ {
        SpecToken::NoAssertion
    } else if is_license_id(w) || is_license_ref(w) {
        SpecToken::Ident(w)
    } else {
        SpecToken::Invalid(w)
    }
}

/// The length of the longest prefix of `s` that holds no delimiter.
pub open spec fn word_len(s: Seq<char>) -> nat
    decreases s.len(),
{
    if s.len() == 0 || is_delimiter(s[0]) {
        0
    } else {
        1 + word_len(s.drop_first())
    }
}

/// The tokens of a text: white space is dropped, each parenthesis is a
/// token of its own, and every other maximal run of characters is one word.
pub open spec fn spec_tokenize(s: Seq<char>) -> Seq<SpecToken>
    decreases s.len(),
    via spec_tokenize_decreases
{
    if s.len() == 0 {
        Seq::empty()
    } else if is_space(s[0]) {
        spec_tokenize(s.skip(1))
    } else if s[0] == '(' {
        seq![SpecToken::Open] + spec_tokenize(s.skip(1))
    } else if s[0] == ')' {
        seq![SpecToken::Close] + spec_tokenize(s.skip(1))
    } else {
        let n = word_len(s);
        seq![classify(s.take(n as int))] + spec_tokenize(s.skip(n as int))
    }
}

#[via_fn]
proof fn spec_tokenize_decreases(s: Seq<char>) {
    lemma_word_len_bounds(s);
}

/// A word is never longer than the text, and not empty where the text
/// starts with a character that is no delimiter.
pub proof fn lemma_word_len_bounds(s: Seq<char>)
    ensures
        word_len(s) <= s.len(),
        s.len() > 0 && !is_delimiter(s[0]) ==> word_len(s) >= 1,
    decreases s.len(),
{
    if s.len() > 0 && !is_delimiter(s[0]) {
        lemma_word_len_bounds(s.drop_first());
    }
}

/// The first word of a text holds no delimiter, and a delimiter or the end
/// of the text follows it.
pub proof fn lemma_word_len_is_word(s: Seq<char>)
    ensures
        word_len(s) <= s.len(),
        forall|j: int| 0 <= j < word_len(s) ==> !is_delimiter(#[trigger] s[j]),
        word_len(s) < s.len() ==> is_delimiter(s[word_len(s) as int]),
    decreases s.len(),
{
    if s.len() > 0 && !is_delimiter(s[0]) {
        let t = s.drop_first();
        lemma_word_len_is_word(t);
        assert forall|j: int| 0 <= j < word_len(s) implies !is_delimiter(#[trigger] s[j]) by {
            if j > 0 {
                assert(s[j] == t[j - 1]);
            }
        }
        if word_len(s) < s.len() {
            assert(s[word_len(s) as int] == t[word_len(t) as int]);
        }
    }
}

/// Two texts that meet at a delimiter are split into tokens one after the
/// other.
pub proof fn lemma_tokenize_concat(a: Seq<char>, b: Seq<char>)
    requires
        a.len() == 0 || b.len() == 0 || is_delimiter(a.last()) || is_delimiter(b[0]),
    ensures
        spec_tokenize(a + b) == spec_tokenize(a) + spec_tokenize(b),
    decreases a.len(),
{
    let s = a + b;
    if a.len() == 0 {
        assert(s =~= b);
        assert(spec_tokenize(a) + spec_tokenize(b) =~= spec_tokenize(b));
    } else if b.len() == 0 {
        assert(s =~= a);
        assert(spec_tokenize(a) + spec_tokenize(b) =~= spec_tokenize(a));
    } else {
        assert(s[0] == a[0]);
        if is_delimiter(a[0]) {
            let rest = a.skip(1);
            assert(s.skip(1) =~= rest + b);
            if rest.len() > 0 {
                assert(rest.last() == a.last());
            }
            lemma_tokenize_concat(rest, b);
            let first = if a[0] == '(' {
                SpecToken::Open
            } else {
                SpecToken::Close
            };
            assert(seq![first] + (spec_tokenize(rest) + spec_tokenize(b)) =~= (seq![first]
                + spec_tokenize(rest)) + spec_tokenize(b));
        } else {
            lemma_word_len_is_word(a);
            lemma_word_len_bounds(a);
            let m = word_len(a) as int;
            assert forall|j: int| 0 <= j < m implies !is_delimiter(#[trigger] s[j]) by {
                assert(s[j] == a[j]);
            }
            if m < a.len() {
                assert(s[m] == a[m]);
            } else {
                assert(a.last() == a[m - 1]);
                assert(s[m] == b[0]);
            }
            lemma_word_len(s, m);
            let rest = a.skip(m);
            assert(s.take(m) =~= a.take(m));
            assert(s.skip(m) =~= rest + b);
            if rest.len() > 0 {
                assert(rest.last() == a.last());
            }
            lemma_tokenize_concat(rest, b);
            let first = classify(a.take(m));
            assert(seq![first] + (spec_tokenize(rest) + spec_tokenize(b)) =~= (seq![first]
                + spec_tokenize(rest)) + spec_tokenize(b));
        }
    }
}

/// A text of one delimiter is one parenthesis, or nothing.
pub proof fn lemma_tokenize_delimiter(c: char)
    requires
        is_delimiter(c),
    ensures
        spec_tokenize(seq![c]) == if c == '(' {
            seq![SpecToken::Open]
        } else if c == ')' {
            seq![SpecToken::Close]
        } else {
            Seq::<SpecToken>::empty()
        },
{
    let s = seq![c];
    assert(s.skip(1) =~= Seq::<char>::empty());
    assert(spec_tokenize(Seq::<char>::empty()) =~= Seq::<SpecToken>::empty());
    assert(s[0] == c);
    assert(seq![SpecToken::Open] + Seq::<SpecToken>::empty() =~= seq![SpecToken::Open]);
    assert(seq![SpecToken::Close] + Seq::<SpecToken>::empty() =~= seq![SpecToken::Close]);
}

/// A text without a delimiter is one word.
pub proof fn lemma_tokenize_word(w: Seq<char>)
    requires
        w.len() > 0,
        forall|j: int| 0 <= j < w.len() ==> !is_delimiter(#[trigger] w[j]),
    ensures
        spec_tokenize(w) == seq![classify(w)],
{
    lemma_word_len(w, w.len() as int);
    assert(w.take(w.len() as int) =~= w);
    assert(w.skip(w.len() as int) =~= Seq::<char>::empty());
    assert(spec_tokenize(Seq::<char>::empty()) =~= Seq::<SpecToken>::empty());
    assert(seq![classify(w)] + Seq::<SpecToken>::empty() =~= seq![classify(w)]);
}

/// Three texts, the middle one with a delimiter at either end, are split
/// into tokens one after the other.
pub proof fn lemma_tokenize_joined(a: Seq<char>, middle: Seq<char>, b: Seq<char>)
    requires
        middle.len() > 0,
        is_delimiter(middle[0]),
        is_delimiter(middle.last()),
    ensures
        spec_tokenize(a + middle + b) == spec_tokenize(a) + spec_tokenize(middle) + spec_tokenize(
            b,
        ),
{
    assert((a + middle).last() == middle.last());
    lemma_tokenize_concat(a + middle, b);
    lemma_tokenize_concat(a, middle);
}

/// A word between two spaces is that word's token.
pub proof fn lemma_tokenize_spaced_word(text: Seq<char>, w: Seq<char>)
    requires
        w.len() > 0,
        forall|j: int| 0 <= j < w.len() ==> !is_delimiter(#[trigger] w[j]),
        text == seq![' '] + w + seq![' '],
    ensures
        spec_tokenize(text) == seq![classify(w)],
{
    let space = seq![' '];
    lemma_tokenize_delimiter(' ');
    lemma_tokenize_word(w);
    lemma_tokenize_joined(Seq::<char>::empty(), space, w + space);
    lemma_tokenize_concat(w, space);
    assert(text =~= Seq::<char>::empty() + space + (w + space));
    assert(spec_tokenize(Seq::<char>::empty()) + spec_tokenize(space) + (spec_tokenize(w)
        + spec_tokenize(space)) =~= seq![classify(w)]);
}

/// A well-formed identifier is one word, and the token of that word is
/// the identifier.
pub proof fn lemma_identifier_is_word(w: Seq<char>)
    requires
        is_identifier(w),
    ensures
        w.len() > 0,
        forall|j: int| 0 <= j < w.len() ==> !is_delimiter(#[trigger] w[j]),
        classify(w) == SpecToken::Ident(w),
{
    reveal_strlit("DocumentRef-");
    reveal_strlit(":LicenseRef-");
    if is_idstring(w) {
    } else if w.len() > 0 && w.last() == '+' && is_idstring(w.drop_last()) {
        assert forall|j: int| 0 <= j < w.len() implies !is_delimiter(#[trigger] w[j]) by {
            if j < w.len() - 1 {
                assert(w[j] == w.drop_last()[j]);
            }
        }
    } else {
        let k = choose|k: int| is_license_ref_at(w, k);
        assert forall|j: int| 0 <= j < w.len() implies !is_delimiter(#[trigger] w[j]) by {
            if j < 12 {
                assert(w[j] == w.subrange(0, 12)[j]);
            } else if j < k {
                assert(w[j] == w.subrange(12, k)[j - 12]);
            } else if j < k + 12 {
                assert(w[j] == w.subrange(k, k + 12)[j - k]);
            } else {
                assert(w[j] == w.subrange(k + 12, w.len() as int)[j - k - 12]);
            }
        }
    }
}

/// An identifier token holds a well-formed identifier.
pub open spec fn token_checked(token: SpecToken) -> bool {
    match token {
        SpecToken::Ident(word) => is_identifier(word),
        _ => true,
    }
}

/// Every identifier token of the sequence holds a well-formed identifier.
pub open spec fn tokens_checked(tokens: Seq<SpecToken>) -> bool {
    forall|i: int| 0 <= i < tokens.len() ==> token_checked(#[trigger] tokens[i])
}

/// The tokens of a text hold no identifier that is not well-formed.
pub proof fn lemma_tokenize_checked(s: Seq<char>)
    ensures
        tokens_checked(spec_tokenize(s)),
    decreases s.len(),
{
    if s.len() == 0 {
    } else if is_delimiter(s[0]) {
        lemma_tokenize_checked(s.skip(1));
    } else {
        lemma_word_len_bounds(s);
        lemma_tokenize_checked(s.skip(word_len(s) as int));
    }
}

/// A token of the expression syntax.
#[derive(Debug, PartialEq, Eq)]
pub enum Token {
    Open,
    Close,
    And,
    Or,
    With,
    NoLicense,
    NoAssertion,
    Ident(String),
    Invalid(String),
}

impl View for Token {
    type V = SpecToken;

    open spec fn view(&self) -> SpecToken {
        match self {
            Token::Open => SpecToken::Open,
            Token::Close => SpecToken::Close,
            Token::And => SpecToken::And,
            Token::Or => SpecToken::Or,
            Token::With => SpecToken::With,
            Token::NoLicense => SpecToken::NoLicense,
            Token::NoAssertion => SpecToken::NoAssertion,
            Token::Ident(w) => SpecToken::Ident(w@),
            Token::Invalid(w) => SpecToken::Invalid(w@),
        }
    }
}

impl Token {
    /// Whether this is the token `)`.
    pub fn is_close(&self) -> (r: bool)
        ensures
            r == (self@ is Close),
    {
        match self {
            Token::Close => true,
            _ => false,
        }
    }

    /// Whether this is the operator `AND`.
    pub fn is_and(&self) -> (r: bool)
        ensures
            r == (self@ is And),
    {
        match self {
            Token::And => true,
            _ => false,
        }
    }

    /// Whether this is the operator `OR`.
    pub fn is_or(&self) -> (r: bool)
        ensures
            r == (self@ is Or),
    {
        match self {
            Token::Or => true,
            _ => false,
        }
    }

    /// Whether this is the operator `WITH`.
    pub fn is_with(&self) -> (r: bool)
        ensures
            r == (self@ is With),
    {
        match self {
            Token::With => true,
            _ => false,
        }
    }

    /// The text this token is written as.
    pub fn text(&self) -> (r: String)
        ensures
            r@ == self@.text(),
    {
        match self {
            Token::Open => String::from_str("("),
            Token::Close => String::from_str(")"),
            Token::And => String::from_str("AND"),
            Token::Or => String::from_str("OR"),
            Token::With => String::from_str("WITH"),
            Token::NoLicense => String::from_str("NONE"),
            Token::NoAssertion => String::from_str("NOASSERTION"),
            Token::Ident(w) => w.clone(),
            Token::Invalid(w) => w.clone(),
        }
    }
}

/// The views of a sequence of tokens.
pub open spec fn token_views(tokens: Seq<Token>) -> Seq<SpecToken> {
    tokens.map_values(|t: Token| t@)
}

/// Whether `c` is white space.
pub fn is_space_char(c: char) -> (r: bool)
    ensures
        r == is_space(c),
{
    c == ' ' || c == '\t' || c == '\n' || c == '\x0C' || c == '\r'
}

/// Whether `c` ends a word.
pub fn is_delimiter_char(c: char) -> (r: bool)
    ensures
        r == is_delimiter(c),
{
    is_space_char(c) || c == '(' || c == ')'
}

fn idstring_char(c: char) -> (r: bool)
    ensures
        r == is_idstring_char(c),
{
    ('a' <= c && c <= 'z') || ('A' <= c && c <= 'Z') || ('0' <= c && c <= '9') || c == '-' || c
        == '.'
}

/// The characters of a text, in order.
pub fn chars_of(text: &str) -> (chars: Vec<char>)
    ensures
        chars@ == text@,
{
    let mut chars: Vec<char> = Vec::new();
    for c in it: text.chars()
        invariant
            chars@ == it.seq().take(it.index()),
            it.seq() == text@,
    {
        chars.push(c);
    }
    chars
}

/// The index of the first character from `start` on that is no `idstring`
/// character, or `end` if there is none before it.
fn idstring_end(chars: &Vec<char>, start: usize, end: usize) -> (k: usize)
    requires
        start <= end <= chars.len(),
    ensures
        start <= k <= end,
        forall|j: int| start <= j < k ==> is_idstring_char(#[trigger] chars@[j]),
        k < end ==> !is_idstring_char(chars@[k as int]),
{
    let mut k: usize = start;
    while k < end && idstring_char(chars[k])
        invariant
            start <= k <= end <= chars.len(),
            forall|j: int| start <= j < k ==> is_idstring_char(#[trigger] chars@[j]),
        decreases end - k,
    {
        k += 1;
    }
    k
}

fn idstring(chars: &Vec<char>, start: usize, end: usize) -> (r: bool)
    requires
        start <= end <= chars.len(),
    ensures
        r == is_idstring(chars@.subrange(start as int, end as int)),
{
    let k: usize = idstring_end(chars, start, end);
    proof {
        let w = chars@.subrange(start as int, end as int);
        if k < end {
            assert(w[k - start] == chars@[k as int]);
        } else {
            assert forall|j: int| 0 <= j < w.len() implies is_idstring_char(#[trigger] w[j]) by {
                assert(w[j] == chars@[start + j]);
            }
        }
    }
    start < end && k == end
}

fn license_id(chars: &Vec<char>, start: usize, end: usize) -> (r: bool)
    requires
        start <= end <= chars.len(),
    ensures
        r == is_license_id(chars@.subrange(start as int, end as int)),
{
    if idstring(chars, start, end) {
        return true;
    }
    if start < end && chars[end - 1] == '+' {
        proof {
            let w = chars@.subrange(start as int, end as int);
            assert(w.drop_last() =~= chars@.subrange(start as int, end - 1));
        }
        idstring(chars, start, end - 1)
    } else {
        false
    }
}

/// Whether the characters of `text` from `from` up to `to` spell `literal`.
fn spells(text: &str, from: usize, to: usize, literal: &str) -> (r: bool)
    requires
        from <= to <= text@.len(),
    ensures
        r == (text@.subrange(from as int, to as int) == literal@),
{
    let part = String::from_str(text.substring_char(from, to));
    let wanted = String::from_str(literal);
    part == wanted
}

fn license_ref(text: &str, chars: &Vec<char>, start: usize, end: usize) -> (r: bool)
    requires
        chars@ == text@,
        start <= end <= chars.len(),
    ensures
        r == is_license_ref(text@.subrange(start as int, end as int)),
{
    let ghost w = text@.subrange(start as int, end as int);
    proof {
        reveal_strlit("DocumentRef-");
        reveal_strlit(":LicenseRef-");
    }
    if end - start < 24 {
        return false;
    }
    let colon: usize = idstring_end(chars, start + 12, end);
    proof {
        // The colon of any split is the first character after the prefix
        // that is no `idstring` character.
        assert forall|k: int| is_license_ref_at(w, k) implies k == colon - start by {
            let d = w.subrange(12, k);
            let tail = w.subrange(k, k + 12);
            assert(tail[0] == ':');
            assert(w[k] == tail[0]);
            assert(chars@[start + k] == w[k]);
            if k > colon - start {
                assert(d[colon - start - 12] == w[colon - start]);
                assert(w[colon - start] == chars@[colon as int]);
            }
        }
    }
    if end - colon < 12 {
        return false;
    }
    proof {
        let k = colon - start;
        assert(w.subrange(0, 12) =~= text@.subrange(start as int, start + 12));
        assert(w.subrange(12, k) =~= chars@.subrange(start + 12, colon as int));
        assert(w.subrange(k, k + 12) =~= text@.subrange(colon as int, colon + 12));
        assert(w.subrange(k + 12, w.len() as int) =~= chars@.subrange(colon + 12, end as int));
    }
    let found = spells(text, start, start + 12, "DocumentRef-") && idstring(
        chars,
        start + 12,
        colon,
    ) && spells(text, colon, colon + 12, ":LicenseRef-") && idstring(chars, colon + 12, end);
    proof {
        if found {
            assert(is_license_ref_at(w, colon - start));
        }
    }
    found
}

fn is_literal(word: &String, literal: &str) -> (r: bool)
    ensures
        r == (word@ == literal@),
{
    let wanted = String::from_str(literal);
    *word == wanted
}

/// The token that the word from `start` up to `end` stands for.
fn classify_word(text: &str, chars: &Vec<char>, start: usize, end: usize) -> (t: Token)
    requires
        chars@ == text@,
        start <= end <= chars.len(),
    ensures
        t@ == classify(text@.subrange(start as int, end as int)),
{
    let word = String::from_str(text.substring_char(start, end));
    if is_literal(&word, "AND") {
        Token::And
    } else if is_literal(&word, "OR") {
        Token::Or
    } else if is_literal(&word, "WITH") {
        Token::With
    } else if is_literal(&word, "NONE") {
        Token::NoLicense
    } else if is_literal(&word, "NOASSERTION") {
        Token::NoAssertion
    } else if license_id(chars, start, end) || license_ref(text, chars, start, end) {
        Token::Ident(word)
    } else {
        Token::Invalid(word)
    }
}

/// A run of `k` characters that holds no delimiter and is followed by one,
/// or by the end of the text, is the first word of the text.
pub proof fn lemma_word_len(s: Seq<char>, k: int)
    requires
        0 <= k <= s.len(),
        forall|j: int| 0 <= j < k ==> !is_delimiter(#[trigger] s[j]),
        k == s.len() || is_delimiter(s[k]),
    ensures
        word_len(s) == k,
    decreases k,
{
    if k > 0 {
        let t = s.drop_first();
        assert forall|j: int| 0 <= j < k - 1 implies !is_delimiter(#[trigger] t[j]) by {
            assert(t[j] == s[j + 1]);
        }
        lemma_word_len(t, k - 1);
    }
}

/// Splits a text into its tokens.
pub fn tokenize(text: &str) -> (tokens: Vec<Token>)
    ensures
        token_views(tokens@) == spec_tokenize(text@),
{
    let chars = chars_of(text);
    let n: usize = chars.len();
    let mut tokens: Vec<Token> = Vec::new();
    let mut i: usize = 0;
    assert(text@.skip(0) =~= text@);
    assert(token_views(tokens@) =~= Seq::<SpecToken>::empty());
    while i < n
        invariant
            i <= n,
            n == chars.len(),
            chars@ == text@,
            spec_tokenize(text@) == token_views(tokens@) + spec_tokenize(text@.skip(i as int)),
        decreases n - i,
    {
        let c = chars[i];
        let ghost rest = text@.skip(i as int);
        let ghost before = token_views(tokens@);
        assert(rest[0] == c);
        if is_space_char(c) {
            assert(rest.skip(1) =~= text@.skip(i + 1));
            i += 1;
        } else if c == '(' {
            tokens.push(Token::Open);
            assert(rest.skip(1) =~= text@.skip(i + 1));
            assert(token_views(tokens@) =~= before.push(SpecToken::Open));
            assert(before + (seq![SpecToken::Open] + spec_tokenize(rest.skip(1)))
                =~= before.push(SpecToken::Open) + spec_tokenize(rest.skip(1)));
            i += 1;
        } else if c == ')' {
            tokens.push(Token::Close);
            assert(rest.skip(1) =~= text@.skip(i + 1));
            assert(token_views(tokens@) =~= before.push(SpecToken::Close));
            assert(before + (seq![SpecToken::Close] + spec_tokenize(rest.skip(1)))
                =~= before.push(SpecToken::Close) + spec_tokenize(rest.skip(1)));
            i += 1;
        } else {
            let mut j: usize = i + 1;
            while j < n && !is_delimiter_char(chars[j])
                invariant
                    i < j <= n,
                    n == chars.len(),
                    forall|k: int| i <= k < j ==> !is_delimiter(#[trigger] chars@[k]),
                decreases n - j,
            {
                j += 1;
            }
            let token = classify_word(text, &chars, i, j);
            proof {
                assert forall|k: int| 0 <= k < j - i implies !is_delimiter(#[trigger] rest[k]) by {
                    assert(rest[k] == chars@[i + k]);
                }
                lemma_word_len(rest, j - i);
                assert(rest.take(j - i) =~= text@.subrange(i as int, j as int));
                assert(rest.skip(j - i) =~= text@.skip(j as int));
            }
            let ghost spec_token = token@;
            tokens.push(token);
            assert(token_views(tokens@) =~= before.push(spec_token));
            assert(before + (seq![spec_token] + spec_tokenize(rest.skip(j - i)))
                =~= before.push(spec_token) + spec_tokenize(rest.skip(j - i)));
            i = j;
        }
    }
    assert(text@.skip(n as int) =~= Seq::<char>::empty());
    tokens
}

} // verus!
