//! Heuristic classification of clipboard text into tags.
//!
//! Every rule is a search for fixed patterns, or a test on the first and last
//! characters. The searches are made by the regular-expression engine; the
//! rules on top of them (thresholds, priority among languages, the order of
//! the tags) are defined and proved here.

use crate::pattern::{found, is_found};
use crate::text::{
    count_numeric, chars_of, is_white_space, lemma_numeric_count_trimmed, lemma_trimmed_unchanged,
    numeric_count, trim, trimmed,
};
use vstd::prelude::*;
use vstd::string::*;

verus! {

pub const TAG_URL: &'static str = "url";

pub const TAG_EMAIL: &'static str = "email";

pub const TAG_PHONE: &'static str = "phone";

pub const TAG_PATH: &'static str = "path";

pub const TAG_JSON: &'static str = "json";

pub const TAG_MARKDOWN: &'static str = "markdown";

pub const TAG_CODE: &'static str = "code";

/// What a language tag starts with; the language's name follows.
pub const LANGUAGE_TAG_PREFIX: &'static str = "code:";

/// A whole text that is an `http` or `https` address without whitespace.
pub const URL_PATTERN: &'static str = r"^https?://[^\s]+$";

/// A whole text of the form `local@domain.tld`.
pub const EMAIL_PATTERN: &'static str = r"^[a-zA-Z0-9._%+-]+@[a-zA-Z0-9.-]+\.[a-zA-Z]{2,}$";

/// A whole text of digits, spaces, hyphens and parentheses, with an optional
/// leading `+`.
pub const PHONE_PATTERN: &'static str = r"^[\+\d]?[\d\s\-\(\)]+$";

/// A text that starts with a drive letter and a separator, with `/` or with
/// `~`.
pub const PATH_PATTERN: &'static str = r"^[A-Za-z]:[\\\/]|^[\/~]";

/// How many numeric characters a phone number has at least.
pub const PHONE_MIN_DIGITS: usize = 7;

/// How many of its patterns a class of text must show to be recognised.
pub const HIT_THRESHOLD: usize = 2;

/// The programming languages that can be told apart, in order of priority.
#[derive(Clone, Copy, Debug, PartialEq, Eq, Structural)]
pub enum Language {
    Rust,
    JavaScript,
    TypeScript,
    Python,
    Java,
    Go,
    Cpp,
    CSharp,
}

/// What the individual rules found in one text.
#[derive(Clone, Copy, Debug)]
pub struct Signals {
    pub url: bool,
    pub email: bool,
    pub phone: bool,
    pub path: bool,
    pub json: bool,
    pub markdown: bool,
    pub code: bool,
    /// The language recognised in code; `None` where the text is no code.
    pub language: Option<Language>,
}

/// The texts of a list of patterns.
pub open spec fn pattern_texts(patterns: Seq<&'static str>) -> Seq<Seq<char>> {
    Seq::new(patterns.len(), |i: int| patterns[i]@)
}

/// How many of `patterns` are found in `text`.
pub open spec fn hits(patterns: Seq<Seq<char>>, text: Seq<char>) -> nat
    decreases patterns.len(),
{
    if patterns.len() == 0 {
        0
    } else {
        hits(patterns.drop_last(), text) + if found(patterns.last(), text) {
            1nat
        } else {
            0nat
        }
    }
}

/// The patterns of Markdown markup: a heading at the start of a line, bold,
/// italic, a link, a list item at the start of a line, the mark of a fenced
/// code block.
pub open spec fn markdown_patterns() -> Seq<Seq<char>> {
    seq![
        r"(?m)^#{1,6}\s"@,
        r"\*\*[^*]+\*\*"@,
        r"\*[^*]+\*"@,
        r"\[.+\]\(.+\)"@,
        r"(?m)^[\*\-]\s"@,
        r"```"@,
    ]
}

/// The four classes of patterns that speak for source code: declaration
/// keywords, control-flow keywords, structural punctuation, access
/// modifiers.
pub open spec fn code_patterns() -> Seq<Seq<char>> {
    seq![
        r"(function|const|let|var|class|def|import|export)"@,
        r"(if|else|for|while|return)"@,
        r"[\{\}\[\]\(\);]"@,
        r"(public|private|protected|static)"@,
    ]
}

impl Language {
    /// The language's name as it appears in a tag.
    pub open spec fn label(self) -> Seq<char> {
        match self {
            Language::Rust => "rust"@,
            Language::JavaScript => "javascript"@,
            Language::TypeScript => "typescript"@,
            Language::Python => "python"@,
            Language::Java => "java"@,
            Language::Go => "go"@,
            Language::Cpp => "cpp"@,
            Language::CSharp => "csharp"@,
        }
    }

    /// The patterns of the language's idioms.
    pub open spec fn idioms(self) -> Seq<Seq<char>> {
        match self {
            Language::Rust => seq![r"fn\s+\w+"@, r"let\s+mut"@, r"impl\s+"@, r"use\s+\w+::"@],
            Language::JavaScript => seq![
                r"const\s+\w+\s*="@,
                r"=>\s*\{"@,
                r"function\s+\w+\("@,
                r"\.then\("@,
            ],
            Language::TypeScript => seq![
                r":\s*(string|number|boolean)"@,
                r"interface\s+\w+"@,
                r"type\s+\w+\s*="@,
            ],
            Language::Python => seq![
                r"def\s+\w+\("@,
                r"import\s+\w+"@,
                r":\s*$"@,
                r"if\s+__name__"@,
            ],
            Language::Java => seq![
                r"public\s+class"@,
                r"private\s+\w+"@,
                r"@Override"@,
                r"new\s+\w+\("@,
            ],
            Language::Go => seq![r"func\s+\w+\("@, r"package\s+\w+"@, r":="@, r"go\s+func"@],
            Language::Cpp => seq![r"#include\s*<"@, r"std::"@, r"nullptr"@, r"template\s*<"@],
            Language::CSharp => seq![
                r"using\s+System"@,
                r"namespace\s+\w+"@,
                r"public\s+override"@,
            ],
        }
    }

    /// All languages, the one of highest priority first.
    pub open spec fn ranked() -> Seq<Language> {
        seq![
            Language::Rust,
            Language::JavaScript,
            Language::TypeScript,
            Language::Python,
            Language::Java,
            Language::Go,
            Language::Cpp,
            Language::CSharp,
        ]
    }

    /// The tag that names this language.
    pub open spec fn tag(self) -> Seq<char> {
        LANGUAGE_TAG_PREFIX@ + self.label()
    }

    /// The language's name as it appears in a tag.
    pub fn name(self) -> (s: &'static str)
        ensures
            s@ == self.label(),
    {
        match self {
            Language::Rust => "rust",
            Language::JavaScript => "javascript",
            Language::TypeScript => "typescript",
            Language::Python => "python",
            Language::Java => "java",
            Language::Go => "go",
            Language::Cpp => "cpp",
            Language::CSharp => "csharp",
        }
    }

    /// The patterns of the language's idioms.
    pub fn idiom_patterns(self) -> (v: Vec<&'static str>)
        ensures
            pattern_texts(v@) == self.idioms(),
    {
        let v = match self {
            Language::Rust => vec![r"fn\s+\w+", r"let\s+mut", r"impl\s+", r"use\s+\w+::"],
            Language::JavaScript => vec![
                r"const\s+\w+\s*=",
                r"=>\s*\{",
                r"function\s+\w+\(",
                r"\.then\(",
            ],
            Language::TypeScript => vec![
                r":\s*(string|number|boolean)",
                r"interface\s+\w+",
                r"type\s+\w+\s*=",
            ],
            Language::Python => vec![r"def\s+\w+\(", r"import\s+\w+", r":\s*$", r"if\s+__name__"],
            Language::Java => vec![
                r"public\s+class",
                r"private\s+\w+",
                r"@Override",
                r"new\s+\w+\(",
            ],
            Language::Go => vec![r"func\s+\w+\(", r"package\s+\w+", r":=", r"go\s+func"],
            Language::Cpp => vec![r"#include\s*<", r"std::", r"nullptr", r"template\s*<"],
            Language::CSharp => vec![r"using\s+System", r"namespace\s+\w+", r"public\s+override"],
        };
        assert(pattern_texts(v@) =~= self.idioms());
        v
    }

    /// All languages, the one of highest priority first.
    pub fn by_priority() -> (v: Vec<Language>)
        ensures
            v@ == Language::ranked(),
    {
        let v = vec![
            Language::Rust,
            Language::JavaScript,
            Language::TypeScript,
            Language::Python,
            Language::Java,
            Language::Go,
            Language::Cpp,
            Language::CSharp,
        ];
        assert(v@ =~= Language::ranked());
        v
    }
}

/// Whether the trimmed text is an `http` or `https` address.
pub open spec fn is_url_text(content: Seq<char>) -> bool {
    found(URL_PATTERN@, trimmed(content))
}

/// Whether the trimmed text is an e-mail address.
pub open spec fn is_email_text(content: Seq<char>) -> bool {
    found(EMAIL_PATTERN@, trimmed(content))
}

/// Whether the trimmed text has the shape of a phone number and at least
/// seven numeric characters.
pub open spec fn is_phone_text(content: Seq<char>) -> bool {
    found(PHONE_PATTERN@, trimmed(content)) && numeric_count(trimmed(content)) >= PHONE_MIN_DIGITS
}

/// Whether the trimmed text starts like a file path.
pub open spec fn is_path_text(content: Seq<char>) -> bool {
    found(PATH_PATTERN@, trimmed(content))
}

/// Whether the trimmed text opens with `{` and closes with `}`, or opens with
/// `[` and closes with `]`.
pub open spec fn is_json_text(content: Seq<char>) -> bool {
    let t = trimmed(content);
    t.len() > 0 && ((t.first() == '{' && t.last() == '}') || (t.first() == '[' && t.last()
        == ']'))
}

/// Whether the text shows at least one pattern of Markdown markup.
pub open spec fn is_markdown_text(content: Seq<char>) -> bool {
    hits(markdown_patterns(), content) >= 1
}

/// Whether the text shows at least two of the four classes of code patterns.
pub open spec fn is_code_text(content: Seq<char>) -> bool {
    hits(code_patterns(), content) >= HIT_THRESHOLD
}

/// The first language, from position `from` of the priority list on, whose
/// count reaches the threshold. `counts` holds one count for each language,
/// in order of priority.
pub open spec fn leader_from(counts: Seq<usize>, from: int) -> Option<Language>
    decreases counts.len() - from,
{
    if from < 0 || from >= counts.len() || from >= Language::ranked().len() {
        None
    } else if counts[from] >= HIT_THRESHOLD {
        Some(Language::ranked()[from])
    } else {
        leader_from(counts, from + 1)
    }
}

/// The language of highest priority whose count reaches the threshold.
pub open spec fn leader(counts: Seq<usize>) -> Option<Language> {
    leader_from(counts, 0)
}

/// For each language, in order of priority, how many of its idioms the text
/// shows.
pub open spec fn language_hits(content: Seq<char>) -> Seq<usize> {
    Seq::new(
        Language::ranked().len(),
        |i: int| hits(Language::ranked()[i].idioms(), content) as usize,
    )
}

/// The language recognised in the text, if any.
pub open spec fn language_of(content: Seq<char>) -> Option<Language> {
    leader(language_hits(content))
}

/// What the rules find in `content`.
pub open spec fn signals_of(content: Seq<char>) -> Signals {
    Signals {
        url: is_url_text(content),
        email: is_email_text(content),
        phone: is_phone_text(content),
        path: is_path_text(content),
        json: is_json_text(content),
        markdown: is_markdown_text(content),
        code: is_code_text(content),
        language: if is_code_text(content) {
            language_of(content)
        } else {
            None
        },
    }
}

/// The one-element list of `tag` where `present`, the empty list otherwise.
pub open spec fn tag_if(present: bool, tag: Seq<char>) -> Seq<Seq<char>> {
    if present {
        seq![tag]
    } else {
        seq![]
    }
}

/// The language tag that follows the `code` tag, if any.
pub open spec fn language_tags(signals: Signals) -> Seq<Seq<char>> {
    match signals.language {
        Some(language) if signals.code => seq![language.tag()],
        _ => seq![],
    }
}

/// The tags for what the rules found, in the order of the rules.
pub open spec fn tags_of(signals: Signals) -> Seq<Seq<char>> {
    tag_if(signals.url, TAG_URL@) + tag_if(signals.email, TAG_EMAIL@) + tag_if(
        signals.phone,
        TAG_PHONE@,
    ) + tag_if(signals.path, TAG_PATH@) + tag_if(signals.json, TAG_JSON@) + tag_if(
        signals.markdown,
        TAG_MARKDOWN@,
    ) + tag_if(signals.code, TAG_CODE@) + language_tags(signals)
}

/// The tags of `content`.
pub open spec fn classification(content: Seq<char>) -> Seq<Seq<char>> {
    tags_of(signals_of(content))
}

/// What is known of the tag names: their lengths and first characters, which
/// tell any two of them apart.
proof fn lemma_tag_shapes()
    ensures
        TAG_URL@.len() == 3 && TAG_URL@[0] == 'u',
        TAG_EMAIL@.len() == 5 && TAG_EMAIL@[0] == 'e',
        TAG_PHONE@.len() == 5 && TAG_PHONE@[0] == 'p',
        TAG_PATH@.len() == 4 && TAG_PATH@[0] == 'p',
        TAG_JSON@.len() == 4 && TAG_JSON@[0] == 'j',
        TAG_MARKDOWN@.len() == 8 && TAG_MARKDOWN@[0] == 'm',
        TAG_CODE@.len() == 4 && TAG_CODE@[0] == 'c',
        forall|language: Language| (#[trigger] language.tag()).len() >= 7 && language.tag()[0] == 'c',
{
    reveal_strlit("url");
    reveal_strlit("email");
    reveal_strlit("phone");
    reveal_strlit("path");
    reveal_strlit("json");
    reveal_strlit("markdown");
    reveal_strlit("code");
    reveal_strlit("code:");
    reveal_strlit("rust");
    reveal_strlit("javascript");
    reveal_strlit("typescript");
    reveal_strlit("python");
    reveal_strlit("java");
    reveal_strlit("go");
    reveal_strlit("cpp");
    reveal_strlit("csharp");
    assert forall|language: Language| (#[trigger] language.tag()).len() >= 7 && language.tag()[0]
        == 'c' by {
        assert(language.label().len() >= 2);
        assert(language.tag()[0] == LANGUAGE_TAG_PREFIX@[0]);
    }
}

/// No tag occurs twice in a classification.
pub proof fn lemma_tags_distinct(signals: Signals)
    ensures
        tags_of(signals).no_duplicates(),
{
    lemma_tag_shapes();
    let none = Seq::<Seq<char>>::empty();
    let a = tag_if(signals.url, TAG_URL@);
    let b = a + tag_if(signals.email, TAG_EMAIL@);
    let c = b + tag_if(signals.phone, TAG_PHONE@);
    let d = c + tag_if(signals.path, TAG_PATH@);
    let e = d + tag_if(signals.json, TAG_JSON@);
    let f = e + tag_if(signals.markdown, TAG_MARKDOWN@);
    let g = f + tag_if(signals.code, TAG_CODE@);
    assert(tags_of(signals) == g + language_tags(signals));
    lemma_append_distinct(none, signals.url, TAG_URL@);
    assert(none + tag_if(signals.url, TAG_URL@) =~= a);
    assert(!a.contains(TAG_EMAIL@));
    lemma_append_distinct(a, signals.email, TAG_EMAIL@);
    assert(!b.contains(TAG_PHONE@));
    lemma_append_distinct(b, signals.phone, TAG_PHONE@);
    assert(!c.contains(TAG_PATH@));
    lemma_append_distinct(c, signals.path, TAG_PATH@);
    assert(!d.contains(TAG_JSON@));
    lemma_append_distinct(d, signals.json, TAG_JSON@);
    assert(!e.contains(TAG_MARKDOWN@));
    lemma_append_distinct(e, signals.markdown, TAG_MARKDOWN@);
    assert(!f.contains(TAG_CODE@));
    lemma_append_distinct(f, signals.code, TAG_CODE@);
    match signals.language {
        Some(language) if signals.code => {
            assert(language_tags(signals) == tag_if(true, language.tag()));
            assert(!g.contains(language.tag()));
            lemma_append_distinct(g, true, language.tag());
        },
        _ => {
            assert(g + language_tags(signals) =~= g);
        },
    }
}

/// Appending a tag that is not among the entries keeps the entries distinct,
/// and adds no other entry.
proof fn lemma_append_distinct(tags: Seq<Seq<char>>, present: bool, tag: Seq<char>)
    requires
        tags.no_duplicates(),
        !tags.contains(tag),
    ensures
        (tags + tag_if(present, tag)).no_duplicates(),
        forall|other: Seq<char>| #[trigger]
            (tags + tag_if(present, tag)).contains(other) ==> tags.contains(other) || other == tag,
{
    let out = tags + tag_if(present, tag);
    if !present {
        assert(out =~= tags);
    } else {
        assert forall|i: int, j: int| 0 <= i < out.len() && 0 <= j < out.len() && i != j implies out[i]
            != out[j] by {
            if i < tags.len() {
                assert(tags.contains(out[i]));
            }
            if j < tags.len() {
                assert(tags.contains(out[j]));
            }
        }
        assert forall|other: Seq<char>| #[trigger] out.contains(other) implies tags.contains(other)
            || other == tag by {
            let k = choose|k: int| 0 <= k < out.len() && out[k] == other;
            if k < tags.len() {
                assert(tags[k] == other);
            }
        }
    }
}

/// No tag occurs twice in the classification of a text.
pub proof fn lemma_classification_distinct(content: Seq<char>)
    ensures
        classification(content).no_duplicates(),
{
    lemma_tags_distinct(signals_of(content));
}

/// The language that leads is the first, in order of priority, whose count
/// reaches the threshold: no language before it reaches it, however high the
/// counts of those after it. No language leads where no count reaches the
/// threshold.
pub proof fn lemma_leader_is_first(counts: Seq<usize>)
    ensures
        match leader(counts) {
            Some(language) => exists|i: int|
                {
                    &&& 0 <= i < counts.len()
                    &&& i < Language::ranked().len()
                    &&& #[trigger] Language::ranked()[i] == language
                    &&& counts[i] >= HIT_THRESHOLD
                    &&& forall|j: int| 0 <= j < i ==> #[trigger] counts[j] < HIT_THRESHOLD
                },
            None => forall|j: int|
                0 <= j < counts.len() && j < Language::ranked().len() ==> #[trigger] counts[j]
                    < HIT_THRESHOLD,
        },
{
    lemma_leader_from(counts, 0);
}

/// As [`lemma_leader_is_first`], for the languages from position `from` on.
proof fn lemma_leader_from(counts: Seq<usize>, from: int)
    requires
        0 <= from,
    ensures
        match leader_from(counts, from) {
            Some(language) => exists|i: int|
                {
                    &&& from <= i < counts.len()
                    &&& i < Language::ranked().len()
                    &&& #[trigger] Language::ranked()[i] == language
                    &&& counts[i] >= HIT_THRESHOLD
                    &&& forall|j: int| from <= j < i ==> #[trigger] counts[j] < HIT_THRESHOLD
                },
            None => forall|j: int|
                from <= j < counts.len() && j < Language::ranked().len() ==> #[trigger] counts[j]
                    < HIT_THRESHOLD,
        },
    decreases counts.len() - from,
{
    if from < counts.len() && from < Language::ranked().len() {
        if counts[from] >= HIT_THRESHOLD {
            assert(Language::ranked()[from] == leader_from(counts, from)->0);
        } else {
            lemma_leader_from(counts, from + 1);
            match leader_from(counts, from + 1) {
                Some(language) => {
                    let i = choose|i: int|
                        {
                            &&& from + 1 <= i < counts.len()
                            &&& i < Language::ranked().len()
                            &&& #[trigger] Language::ranked()[i] == language
                            &&& counts[i] >= HIT_THRESHOLD
                            &&& forall|j: int|
                                from + 1 <= j < i ==> #[trigger] counts[j] < HIT_THRESHOLD
                        };
                    assert(Language::ranked()[i] == language);
                },
                None => {},
            }
        }
    }
}

/// Two languages have different tags.
pub proof fn lemma_language_tags_differ(a: Language, b: Language)
    requires
        a != b,
    ensures
        a.tag() != b.tag(),
{
    reveal_strlit("code:");
    reveal_strlit("rust");
    reveal_strlit("javascript");
    reveal_strlit("typescript");
    reveal_strlit("python");
    reveal_strlit("java");
    reveal_strlit("go");
    reveal_strlit("cpp");
    reveal_strlit("csharp");
    assert(a.tag().len() == 5 + a.label().len());
    assert(b.tag().len() == 5 + b.label().len());
    assert(a.tag()[5] == a.label()[0]);
    assert(b.tag()[5] == b.label()[0]);
}

/// A list of tags with one more, where `present`, holds what the list holds
/// and, where `present`, that one.
proof fn lemma_tag_if_contains(tags: Seq<Seq<char>>, present: bool, tag: Seq<char>, other: Seq<char>)
    ensures
        (tags + tag_if(present, tag)).contains(other) <==> tags.contains(other) || (present
            && other == tag),
{
    let out = tags + tag_if(present, tag);
    if !present {
        assert(out =~= tags);
    } else {
        assert(out =~= tags.push(tag));
        if out.contains(other) {
            let k = choose|k: int| 0 <= k < out.len() && out[k] == other;
            if k < tags.len() {
                assert(tags[k] == other);
            }
        }
        if tags.contains(other) {
            let k = choose|k: int| 0 <= k < tags.len() && tags[k] == other;
            assert(out[k] == other);
        }
        if other == tag {
            assert(out[tags.len() as int] == other);
        }
    }
}

/// A tag is in the classification exactly where its rule fired: each of the
/// seven tags where its signal is set, and a language's tag where the text
/// is code of that language. So at most one language tag is given, and none
/// without the tag `code`.
pub proof fn lemma_tags_reflect_signals(signals: Signals)
    ensures
        tags_of(signals).contains(TAG_URL@) <==> signals.url,
        tags_of(signals).contains(TAG_EMAIL@) <==> signals.email,
        tags_of(signals).contains(TAG_PHONE@) <==> signals.phone,
        tags_of(signals).contains(TAG_PATH@) <==> signals.path,
        tags_of(signals).contains(TAG_JSON@) <==> signals.json,
        tags_of(signals).contains(TAG_MARKDOWN@) <==> signals.markdown,
        tags_of(signals).contains(TAG_CODE@) <==> signals.code,
        forall|language: Language|
            tags_of(signals).contains(#[trigger] language.tag()) <==> signals.code
                && signals.language == Some(language),
{
    lemma_tag_shapes();
    lemma_tags_of_contains(signals, TAG_URL@);
    lemma_tags_of_contains(signals, TAG_EMAIL@);
    lemma_tags_of_contains(signals, TAG_PHONE@);
    lemma_tags_of_contains(signals, TAG_PATH@);
    lemma_tags_of_contains(signals, TAG_JSON@);
    lemma_tags_of_contains(signals, TAG_MARKDOWN@);
    lemma_tags_of_contains(signals, TAG_CODE@);
    assert forall|language: Language|
        tags_of(signals).contains(#[trigger] language.tag()) <==> signals.code && signals.language
            == Some(language) by {
        lemma_tags_of_contains(signals, language.tag());
        if let Some(own) = signals.language {
            if own != language {
                lemma_language_tags_differ(own, language);
            }
        }
    }
}

/// What it takes for `other` to be in a classification.
proof fn lemma_tags_of_contains(signals: Signals, other: Seq<char>)
    ensures
        tags_of(signals).contains(other) <==> {
            ||| signals.url && other == TAG_URL@
            ||| signals.email && other == TAG_EMAIL@
            ||| signals.phone && other == TAG_PHONE@
            ||| signals.path && other == TAG_PATH@
            ||| signals.json && other == TAG_JSON@
            ||| signals.markdown && other == TAG_MARKDOWN@
            ||| signals.code && other == TAG_CODE@
            ||| signals.code && signals.language is Some && other == signals.language->0.tag()
        },
{
    let none = Seq::<Seq<char>>::empty();
    let a = tag_if(signals.url, TAG_URL@);
    let b = a + tag_if(signals.email, TAG_EMAIL@);
    let c = b + tag_if(signals.phone, TAG_PHONE@);
    let d = c + tag_if(signals.path, TAG_PATH@);
    let e = d + tag_if(signals.json, TAG_JSON@);
    let f = e + tag_if(signals.markdown, TAG_MARKDOWN@);
    let g = f + tag_if(signals.code, TAG_CODE@);
    assert(tags_of(signals) == g + language_tags(signals));
    assert(none + tag_if(signals.url, TAG_URL@) =~= a);
    lemma_tag_if_contains(none, signals.url, TAG_URL@, other);
    lemma_tag_if_contains(a, signals.email, TAG_EMAIL@, other);
    lemma_tag_if_contains(b, signals.phone, TAG_PHONE@, other);
    lemma_tag_if_contains(c, signals.path, TAG_PATH@, other);
    lemma_tag_if_contains(d, signals.json, TAG_JSON@, other);
    lemma_tag_if_contains(e, signals.markdown, TAG_MARKDOWN@, other);
    lemma_tag_if_contains(f, signals.code, TAG_CODE@, other);
    match signals.language {
        Some(language) if signals.code => {
            assert(language_tags(signals) == tag_if(true, language.tag()));
            lemma_tag_if_contains(g, true, language.tag(), other);
        },
        _ => {
            assert(g + language_tags(signals) =~= g);
        },
    }
}

/// Text with fewer than seven numeric characters is never tagged `phone`,
/// whatever its shape.
pub proof fn lemma_few_digits_never_phone(content: Seq<char>)
    requires
        numeric_count(content) < PHONE_MIN_DIGITS,
    ensures
        !classification(content).contains(TAG_PHONE@),
{
    lemma_numeric_count_trimmed(content);
    lemma_tags_reflect_signals(signals_of(content));
}

/// Text made of `http://` or `https://` and of characters that are no
/// whitespace is its own trimmed form, so that it is tagged `url` exactly
/// where the address pattern is found in the text as it stands.
pub proof fn lemma_url_candidate_is_searched_whole(content: Seq<char>, rest: Seq<char>)
    requires
        content == "http://"@ + rest || content == "https://"@ + rest,
        forall|i: int| 0 <= i < rest.len() ==> !is_white_space(#[trigger] rest[i]),
    ensures
        trimmed(content) == content,
        classification(content).contains(TAG_URL@) <==> found(URL_PATTERN@, content),
{
    reveal_strlit("http://");
    reveal_strlit("https://");
    let scheme = if content == "http://"@ + rest {
        "http://"@
    } else {
        "https://"@
    };
    assert(content.first() == 'h');
    if rest.len() > 0 {
        assert(content.last() == rest[rest.len() - 1]);
    } else {
        assert(content =~= scheme);
        assert(content.last() == '/');
    }
    lemma_trimmed_unchanged(content);
    lemma_tags_reflect_signals(signals_of(content));
}

/// The classification is a function of the text: two classifications of
/// one text are the same list of tags.
pub proof fn lemma_classification_deterministic(
    content: Seq<char>,
    first: Seq<Seq<char>>,
    second: Seq<Seq<char>>,
)
    requires
        first == classification(content),
        second == classification(content),
    ensures
        first == second,
{
}

/// Counts how many of `patterns` are found in `text`.
pub fn count_hits(patterns: &Vec<&'static str>, text: &str) -> (n: usize)
    ensures
        n == hits(pattern_texts(patterns@), text@),
        n <= patterns@.len(),
{
    let len = patterns.len();
    let ghost all = pattern_texts(patterns@);
    let mut n: usize = 0;
    let mut i: usize = 0;
    assert(all.take(0).len() == 0);
    while i < len
        invariant
            i <= len,
            len == patterns@.len(),
            all == pattern_texts(patterns@),
            n <= i,
            n == hits(all.take(i as int), text@),
        decreases len - i,
    {
        assert(all.take(i + 1).drop_last() =~= all.take(i as int));
        assert(all.take(i + 1).last() == patterns@[i as int]@);
        if is_found(patterns[i], text) {
            n += 1;
        }
        i += 1;
    }
    assert(all.take(len as int) =~= all);
    n
}

/// Appends `tag` to `tags` where `present`.
fn push_tag_if(tags: &mut Vec<String>, present: bool, tag: &'static str)
    ensures
        final(tags).deep_view() == old(tags).deep_view() + tag_if(present, tag@),
{
    if present {
        tags.push(String::from_str(tag));
    }
    assert(tags.deep_view() =~= old(tags).deep_view() + tag_if(present, tag@));
}

/// The text classifier.
pub struct ContentAnalyzer;

impl ContentAnalyzer {
    /// Classifies `content`: the tags of every rule that fires, in the order
    /// url, email, phone, path, json, markdown, code, and after `code` at
    /// most one language tag.
    pub fn analyze(content: &str) -> (tags: Vec<String>)
        ensures
            tags.deep_view() == classification(content@),
            tags.deep_view().no_duplicates(),
    {
        proof {
            lemma_classification_distinct(content@);
        }
        let signals = Self::signals(content);
        Self::tags_from(&signals)
    }

    /// Applies every rule to `content`.
    pub fn signals(content: &str) -> (signals: Signals)
        ensures
            signals == signals_of(content@),
    {
        let code = Self::is_code(content);
        Signals {
            url: Self::is_url(content),
            email: Self::is_email(content),
            phone: Self::is_phone(content),
            path: Self::is_file_path(content),
            json: Self::is_json(content),
            markdown: Self::is_markdown(content),
            code,
            language: if code {
                Self::detect_language(content)
            } else {
                None
            },
        }
    }

    /// The tags for what the rules found.
    pub fn tags_from(signals: &Signals) -> (tags: Vec<String>)
        ensures
            tags.deep_view() == tags_of(*signals),
    {
        let mut tags: Vec<String> = Vec::new();
        assert(tags.deep_view() =~= Seq::<Seq<char>>::empty());
        push_tag_if(&mut tags, signals.url, TAG_URL);
        assert(tags.deep_view() =~= tag_if(signals.url, TAG_URL@));
        push_tag_if(&mut tags, signals.email, TAG_EMAIL);
        push_tag_if(&mut tags, signals.phone, TAG_PHONE);
        push_tag_if(&mut tags, signals.path, TAG_PATH);
        push_tag_if(&mut tags, signals.json, TAG_JSON);
        push_tag_if(&mut tags, signals.markdown, TAG_MARKDOWN);
        push_tag_if(&mut tags, signals.code, TAG_CODE);
        let ghost before = tags.deep_view();
        if signals.code {
            if let Some(language) = signals.language {
                let mut tag = String::from_str(LANGUAGE_TAG_PREFIX);
                tag.append(language.name());
                tags.push(tag);
            }
        }
        assert(tags.deep_view() =~= before + language_tags(*signals));
        tags
    }

    /// The language of highest priority whose idiom count reaches the
    /// threshold. `counts` holds one count for each language, in order of
    /// priority.
    pub fn language_from_hits(counts: &Vec<usize>) -> (language: Option<Language>)
        ensures
            language == leader(counts@),
    {
        let languages = Language::by_priority();
        let mut i: usize = 0;
        while i < counts.len() && i < languages.len()
            invariant
                languages@ == Language::ranked(),
                leader(counts@) == leader_from(counts@, i as int),
            decreases counts@.len() - i,
        {
            if counts[i] >= HIT_THRESHOLD {
                return Some(languages[i]);
            }
            i += 1;
        }
        None
    }

    /// Whether the trimmed text is an `http` or `https` address.
    pub fn is_url(content: &str) -> (b: bool)
        ensures
            b == is_url_text(content@),
    {
        is_found(URL_PATTERN, trim(content))
    }

    /// Whether the trimmed text is an e-mail address.
    pub fn is_email(content: &str) -> (b: bool)
        ensures
            b == is_email_text(content@),
    {
        is_found(EMAIL_PATTERN, trim(content))
    }

    /// Whether the trimmed text has the shape of a phone number and at
    /// least seven numeric characters.
    pub fn is_phone(content: &str) -> (b: bool)
        ensures
            b == is_phone_text(content@),
    {
        let cleaned = trim(content);
        is_found(PHONE_PATTERN, cleaned) && count_numeric(cleaned) >= PHONE_MIN_DIGITS
    }

    /// Whether the trimmed text starts like a file path.
    pub fn is_file_path(content: &str) -> (b: bool)
        ensures
            b == is_path_text(content@),
    {
        is_found(PATH_PATTERN, trim(content))
    }

    /// Whether the trimmed text opens and closes like a JSON object or
    /// array. The text between is not looked at.
    pub fn is_json(content: &str) -> (b: bool)
        ensures
            b == is_json_text(content@),
    {
        let t = chars_of(trim(content));
        let n = t.len();
        if n == 0 {
            return false;
        }
        let first = t[0];
        let last = t[n - 1];
        (first == '{' && last == '}') || (first == '[' && last == ']')
    }

    /// Whether the text shows at least one pattern of Markdown markup.
    pub fn is_markdown(content: &str) -> (b: bool)
        ensures
            b == is_markdown_text(content@),
    {
        let patterns = vec![
            r"(?m)^#{1,6}\s",
            r"\*\*[^*]+\*\*",
            r"\*[^*]+\*",
            r"\[.+\]\(.+\)",
            r"(?m)^[\*\-]\s",
            r"```",
        ];
        assert(pattern_texts(patterns@) =~= markdown_patterns());
        count_hits(&patterns, content) >= 1
    }

    /// Whether the text shows at least two of the four classes of code
    /// patterns.
    pub fn is_code(content: &str) -> (b: bool)
        ensures
            b == is_code_text(content@),
    {
        let patterns = vec![
            r"(function|const|let|var|class|def|import|export)",
            r"(if|else|for|while|return)",
            r"[\{\}\[\]\(\);]",
            r"(public|private|protected|static)",
        ];
        assert(pattern_texts(patterns@) =~= code_patterns());
        count_hits(&patterns, content) >= HIT_THRESHOLD
    }

    /// The language whose idioms `content` shows: the first, in order of
    /// priority, with at least two of its idioms found.
    pub fn detect_language(content: &str) -> (language: Option<Language>)
        ensures
            language == language_of(content@),
    {
        let languages = Language::by_priority();
        let mut counts: Vec<usize> = Vec::new();
        let mut i: usize = 0;
        while i < languages.len()
            invariant
                i <= languages@.len(),
                languages@ == Language::ranked(),
                counts@ =~= language_hits(content@).take(i as int),
            decreases languages@.len() - i,
        {
            let patterns = languages[i].idiom_patterns();
            let n = count_hits(&patterns, content);
            counts.push(n);
            i += 1;
        }
        assert(counts@ =~= language_hits(content@));
        Self::language_from_hits(&counts)
    }
}

} // verus!
