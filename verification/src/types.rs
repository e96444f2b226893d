//! The language taxonomy and the reasons a document needs tagging.

use vstd::prelude::*;
use crate::text;

verus! {

/// The closed set of programming languages a documentation page can
/// demonstrate.  Several input tokens may name the same language; each
/// language has exactly one canonical rendering.
#[derive(Debug, Clone, Copy, PartialEq, Eq, Structural, Hash, PartialOrd, Ord)]
pub enum Language {
    C,
    Cpp,
    Csharp,
    Go,
    Java,
    Javascript,
    Kotlin,
    Perl,
    Php,
    Python,
    Ruby,
    Rust,
    Scala,
    Shell,
    Swift,
}

/// The error returned for a token outside the fixed language table.
#[derive(Debug, PartialEq, Eq, Structural)]
pub struct ParseLangError;

/// Whether a Java page shows the synchronous API, the asynchronous API, or
/// both.
#[derive(Debug, Clone, Copy, PartialEq, Eq, Structural, Hash)]
pub enum JavaSyncness {
    Sync,
    Async,
    Both,
}

/// The language a recognized input token names, or `None` for any token
/// outside the table.
pub open spec fn spec_parse_lang(s: Seq<char>) -> Option<Language> {
    if s == "c"@ {
        Some(Language::C)
    } else if s == "cpp"@ {
        Some(Language::Cpp)
    } else if s == "csharp"@ {
        Some(Language::Csharp)
    } else if s == "go"@ {
        Some(Language::Go)
    } else if s == "java-async"@ {
        Some(Language::Java)
    } else if s == "java-sync"@ {
        Some(Language::Java)
    } else if s == "javascript/typescript"@ {
        Some(Language::Javascript)
    } else if s == "kotlin-coroutine"@ {
        Some(Language::Kotlin)
    } else if s == "kotlin"@ {
        Some(Language::Kotlin)
    } else if s == "nodejs"@ {
        Some(Language::Javascript)
    } else if s == "perl"@ {
        Some(Language::Perl)
    } else if s == "php"@ {
        Some(Language::Php)
    } else if s == "python"@ {
        Some(Language::Python)
    } else if s == "ruby"@ {
        Some(Language::Ruby)
    } else if s == "rust"@ {
        Some(Language::Rust)
    } else if s == "rust-async"@ {
        Some(Language::Rust)
    } else if s == "rust-sync"@ {
        Some(Language::Rust)
    } else if s == "scala"@ {
        Some(Language::Scala)
    } else if s == "shell"@ {
        Some(Language::Shell)
    } else if s == "swift-sync"@ {
        Some(Language::Swift)
    } else if s == "swift-async"@ {
        Some(Language::Swift)
    } else {
        None
    }
}

impl Language {
    /// The canonical rendering of this language in a facet value list.
    pub open spec fn spec_render(self) -> Seq<char> {
        match self {
            Language::C => "c"@,
            Language::Cpp => "cpp"@,
            Language::Csharp => "csharp"@,
            Language::Go => "go"@,
            Language::Java => "java"@,
            Language::Javascript => "javascript/typescript"@,
            Language::Kotlin => "kotlin"@,
            Language::Perl => "perl"@,
            Language::Php => "php"@,
            Language::Python => "python"@,
            Language::Ruby => "ruby"@,
            Language::Rust => "rust"@,
            Language::Scala => "scala"@,
            Language::Shell => "shell"@,
            Language::Swift => "swift"@,
        }
    }

    /// The position of this language in the canonical order.
    pub open spec fn spec_rank(self) -> int {
        match self {
            Language::C => 0,
            Language::Cpp => 1,
            Language::Csharp => 2,
            Language::Go => 3,
            Language::Java => 4,
            Language::Javascript => 5,
            Language::Kotlin => 6,
            Language::Perl => 7,
            Language::Php => 8,
            Language::Python => 9,
            Language::Ruby => 10,
            Language::Rust => 11,
            Language::Scala => 12,
            Language::Shell => 13,
            Language::Swift => 14,
        }
    }

    /// Parse an input token; tokens outside the table are an error, which
    /// callers treat as "ignore", never as fatal.
    pub fn from_str(s: &str) -> (r: Result<Language, ParseLangError>)
        ensures
            match r {
                Ok(l) => spec_parse_lang(s@) == Some(l),
                Err(_) => spec_parse_lang(s@) is None,
            },
    {
        if text::str_eq(s, "c") {
            Ok(Language::C)
        } else if text::str_eq(s, "cpp") {
            Ok(Language::Cpp)
        } else if text::str_eq(s, "csharp") {
            Ok(Language::Csharp)
        } else if text::str_eq(s, "go") {
            Ok(Language::Go)
        } else if text::str_eq(s, "java-async") {
            Ok(Language::Java)
        } else if text::str_eq(s, "java-sync") {
            Ok(Language::Java)
        } else if text::str_eq(s, "javascript/typescript") {
            Ok(Language::Javascript)
        } else if text::str_eq(s, "kotlin-coroutine") {
            Ok(Language::Kotlin)
        } else if text::str_eq(s, "kotlin") {
            Ok(Language::Kotlin)
        } else if text::str_eq(s, "nodejs") {
            Ok(Language::Javascript)
        } else if text::str_eq(s, "perl") {
            Ok(Language::Perl)
        } else if text::str_eq(s, "php") {
            Ok(Language::Php)
        } else if text::str_eq(s, "python") {
            Ok(Language::Python)
        } else if text::str_eq(s, "ruby") {
            Ok(Language::Ruby)
        } else if text::str_eq(s, "rust") {
            Ok(Language::Rust)
        } else if text::str_eq(s, "rust-async") {
            Ok(Language::Rust)
        } else if text::str_eq(s, "rust-sync") {
            Ok(Language::Rust)
        } else if text::str_eq(s, "scala") {
            Ok(Language::Scala)
        } else if text::str_eq(s, "shell") {
            Ok(Language::Shell)
        } else if text::str_eq(s, "swift-sync") {
            Ok(Language::Swift)
        } else if text::str_eq(s, "swift-async") {
            Ok(Language::Swift)
        } else {
            Err(ParseLangError)
        }
    }

    /// The canonical rendering of this language.
    pub fn render(&self) -> (r: String)
        ensures
            r@ == self.spec_render(),
    {
        match self {
            Language::C => "c".to_owned(),
            Language::Cpp => "cpp".to_owned(),
            Language::Csharp => "csharp".to_owned(),
            Language::Go => "go".to_owned(),
            Language::Java => "java".to_owned(),
            Language::Javascript => "javascript/typescript".to_owned(),
            Language::Kotlin => "kotlin".to_owned(),
            Language::Perl => "perl".to_owned(),
            Language::Php => "php".to_owned(),
            Language::Python => "python".to_owned(),
            Language::Ruby => "ruby".to_owned(),
            Language::Rust => "rust".to_owned(),
            Language::Scala => "scala".to_owned(),
            Language::Shell => "shell".to_owned(),
            Language::Swift => "swift".to_owned(),
        }
    }

    /// The position of this language in the canonical order.
    pub fn rank(&self) -> (r: u32)
        ensures
            r as int == self.spec_rank(),
    {
        match self {
            Language::C => 0,
            Language::Cpp => 1,
            Language::Csharp => 2,
            Language::Go => 3,
            Language::Java => 4,
            Language::Javascript => 5,
            Language::Kotlin => 6,
            Language::Perl => 7,
            Language::Php => 8,
            Language::Python => 9,
            Language::Ruby => 10,
            Language::Rust => 11,
            Language::Scala => 12,
            Language::Shell => 13,
            Language::Swift => 14,
        }
    }
}

/// Two languages with the same canonical position are the same language.
pub proof fn lemma_rank_injective(a: Language, b: Language)
    ensures
        a.spec_rank() == b.spec_rank() ==> a == b,
{
}

/// A set of languages, kept in canonical order: the sequence of members is
/// strictly increasing by `spec_rank`, so equal sets render identically.
#[derive(Debug, PartialEq, Eq)]
pub struct LangSet {
    langs: Vec<Language>,
}

impl View for LangSet {
    type V = Seq<Language>;

    closed spec fn view(&self) -> Seq<Language> {
        self.langs@
    }
}

impl LangSet {
    /// The members stand in strictly increasing canonical order.
    pub open spec fn wf(&self) -> bool {
        forall|i: int, j: int|
            0 <= i < j < self@.len() ==> self@[i].spec_rank() < self@[j].spec_rank()
    }

    /// The set of members.
    pub open spec fn to_set(&self) -> Set<Language> {
        self@.to_set()
    }

    /// The empty language set.
    pub fn new() -> (r: LangSet)
        ensures
            r@ == Seq::<Language>::empty(),
            r.wf(),
    {
        LangSet { langs: Vec::new() }
    }

    /// How many languages the set holds.
    pub fn len(&self) -> (r: usize)
        ensures
            r == self@.len(),
    {
        self.langs.len()
    }

    /// Whether the set holds no language.
    pub fn is_empty(&self) -> (r: bool)
        ensures
            r == (self@.len() == 0),
    {
        self.langs.len() == 0
    }

    /// The member at position `i` of the canonical order.
    pub fn get(&self, i: usize) -> (r: Language)
        requires
            i < self@.len(),
        ensures
            r == self@[i as int],
    {
        self.langs[i]
    }

    /// Whether `l` is a member.
    #[verifier::loop_isolation(false)]
    pub fn contains(&self, l: Language) -> (r: bool)
        ensures
            r == self@.contains(l),
    {
        let mut i: usize = 0;
        while i < self.langs.len()
            invariant
                0 <= i <= self@.len(),
                forall|k: int| 0 <= k < i ==> self@[k] != l,
            decreases self@.len() - i,
        {
            if self.langs[i] == l {
                return true;
            }
            i += 1;
        }
        false
    }

    /// Add `l` to the set; a language already present is not added twice,
    /// and the canonical order is kept.
    #[verifier::loop_isolation(false)]
    pub fn insert(&mut self, l: Language)
        requires
            old(self).wf(),
        ensures
            final(self).wf(),
            final(self)@.to_set() == old(self)@.to_set().insert(l),
    {
        let r = l.rank();
        let mut i: usize = 0;
        while i < self.langs.len() && self.langs[i].rank() < r
            invariant
                0 <= i <= self@.len(),
                forall|k: int| 0 <= k < i ==> self@[k].spec_rank() < l.spec_rank(),
            decreases self@.len() - i,
        {
            i += 1;
        }
        if i < self.langs.len() && self.langs[i] == l {
            proof {
                assert(self@.to_set() =~= old(self)@.to_set().insert(l));
            }
            return ;
        }
        proof {
            if i < self@.len() {
                lemma_rank_injective(self@[i as int], l);
                assert(self@[i as int].spec_rank() > l.spec_rank());
            }
        }
        let ghost pre = self@;
        self.langs.insert(i, l);
        proof {
            assert forall|p: int, q: int|
                0 <= p < q < self@.len() implies self@[p].spec_rank()
                < self@[q].spec_rank() by {
                assert(self@ == pre.insert(i as int, l));
            }
            assert(self@.to_set() =~= pre.to_set().insert(l)) by {
                assert forall|x: Language| self@.to_set().contains(x) implies pre.to_set().insert(
                    l,
                ).contains(x) by {
                    let idx = choose|idx: int| 0 <= idx < self@.len() && self@[idx] == x;
                    if idx < i {
                        assert(pre[idx] == x);
                    } else if idx > i {
                        assert(pre[idx - 1] == x);
                    }
                }
                assert forall|x: Language|
                    pre.to_set().insert(l).contains(x) implies self@.to_set().contains(x) by {
                    if pre.contains(x) {
                        let idx = choose|idx: int| 0 <= idx < pre.len() && pre[idx] == x;
                        if idx < i {
                            assert(self@[idx] == x);
                        } else {
                            assert(self@[idx + 1] == x);
                        }
                    } else {
                        assert(self@[i as int] == l);
                    }
                }
            }
        }
    }

}

/// Equal language sets in canonical order are the same sequence: the
/// rendering of a language set does not depend on the order in which its
/// members were inserted.
pub proof fn lemma_langset_canonical(a: LangSet, b: LangSet)
    requires
        a.wf(),
        b.wf(),
        a@.to_set() == b@.to_set(),
    ensures
        a@ == b@,
{
    lemma_sorted_ranks_unique(a@, b@);
}

/// Two sequences that are strictly sorted by rank and hold the same
/// languages are equal.
proof fn lemma_sorted_ranks_unique(a: Seq<Language>, b: Seq<Language>)
    requires
        forall|i: int, j: int| 0 <= i < j < a.len() ==> a[i].spec_rank() < a[j].spec_rank(),
        forall|i: int, j: int| 0 <= i < j < b.len() ==> b[i].spec_rank() < b[j].spec_rank(),
        a.to_set() == b.to_set(),
    ensures
        a == b,
    decreases a.len(),
{
    if a.len() == 0 {
        if b.len() > 0 {
            assert(b.to_set().contains(b[0]));
            assert(a.contains(b[0]));
        }
        assert(a =~= b);
    } else if b.len() == 0 {
        assert(a.to_set().contains(a[0]));
        assert(b.contains(a[0]));
        assert(a =~= b);
    } else {
        assert(a.to_set().contains(a[0]));
        assert(b.contains(a[0]));
        assert(b.to_set().contains(b[0]));
        assert(a.contains(b[0]));
        let ja = choose|ja: int| 0 <= ja < b.len() && b[ja] == a[0];
        let jb = choose|jb: int| 0 <= jb < a.len() && a[jb] == b[0];
        if ja > 0 && jb > 0 {
            assert(b[0].spec_rank() < b[ja].spec_rank());
            assert(a[0].spec_rank() < a[jb].spec_rank());
            assert(false);
        }
        assert(a[0] == b[0]);
        let at = a.drop_first();
        let bt = b.drop_first();
        assert(at.to_set() =~= bt.to_set()) by {
            assert forall|x: Language| at.contains(x) implies bt.contains(x) by {
                let idx = choose|idx: int| 0 <= idx < at.len() && at[idx] == x;
                assert(a[idx + 1] == x);
                assert(a.contains(x));
                assert(a.to_set().contains(x));
                assert(b.to_set().contains(x));
                assert(b.contains(x));
                let bi = choose|bi: int| 0 <= bi < b.len() && b[bi] == x;
                assert(x.spec_rank() > a[0].spec_rank());
                assert(bi > 0);
                assert(bt[bi - 1] == x);
            }
            assert forall|x: Language| bt.contains(x) implies at.contains(x) by {
                let idx = choose|idx: int| 0 <= idx < bt.len() && bt[idx] == x;
                assert(b[idx + 1] == x);
                assert(b.contains(x));
                assert(b.to_set().contains(x));
                assert(a.to_set().contains(x));
                assert(a.contains(x));
                let ai = choose|ai: int| 0 <= ai < a.len() && a[ai] == x;
                assert(x.spec_rank() > b[0].spec_rank());
                assert(ai > 0);
                assert(at[ai - 1] == x);
            }
        }
        lemma_sorted_ranks_unique(at, bt);
        assert(a.len() == b.len());
        assert forall|i: int| 0 <= i < a.len() implies a[i] == b[i] by {
            if i > 0 {
                assert(a[i] == at[i - 1]);
                assert(b[i] == bt[i - 1]);
            }
        }
        assert(a =~= b);
    }
}

/// Why a document needs tagging.
#[derive(Debug, PartialEq, Eq)]
pub enum Reason {
    /// A line holds one of the code-example match strings; the payload is
    /// the matched string.
    CodeExample(String),
    /// The document shows tabbed code examples in these languages.
    Languages(LangSet),
    /// The document has a Node.js tab.
    NodejsTab,
    /// The document has a Compass tab.
    CompassTab,
    /// The document has an Atlas API tab.
    AtlasApiTab,
    /// The document has an Atlas CLI tab.
    AtlasCliTab,
    /// The document has an Atlas UI tab.
    AtlasUiTab,
    /// The document has Java tabs of this syncness.
    Java(JavaSyncness),
}

} // verus!
