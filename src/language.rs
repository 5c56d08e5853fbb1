use vstd::prelude::*;

verus! {

/// The languages that can be highlighted.
///
/// x86 assembly is not among them: its grammar crate, `tree-sitter-x86asm`,
/// is not published in the crate registry, so the key `x86` is unsupported.
#[derive(Clone, Copy, Debug, PartialEq, Eq, Structural)]
pub enum SourceLanguage {
    TypeScript,
    Tsx,
    Rust,
    C,
}

/// What `str::to_lowercase` makes of a text.
pub uninterp spec fn lower_of(s: Seq<char>) -> Seq<char>;

/// Relies on `str::to_lowercase`: the lower-case form depends on the characters alone.
#[verifier::external_body]
fn lowercase(s: &str) -> (r: String)
    ensures
        r@ == lower_of(s@),
{
    s.to_lowercase()
}

/// The language that a lower-case key names.
pub open spec fn language_spec(key: Seq<char>) -> Option<SourceLanguage> {
    if key == seq!['t', 's'] || key == seq!['t', 'y', 'p', 'e', 's', 'c', 'r', 'i', 'p', 't'] {
        Some(SourceLanguage::TypeScript)
    } else if key == seq!['t', 's', 'x'] {
        Some(SourceLanguage::Tsx)
    } else if key == seq!['r', 's'] || key == seq!['r', 'u', 's', 't'] {
        Some(SourceLanguage::Rust)
    } else if key == seq!['c'] {
        Some(SourceLanguage::C)
    } else {
        None
    }
}

/// Whether two texts hold the same characters.
fn same_chars(a: &str, b: &str) -> (r: bool)
    ensures
        r == (a@ == b@),
{
    let n = a.unicode_len();
    if n != b.unicode_len() {
        return false;
    }
    let mut i: usize = 0;
    while i < n
        invariant
            n == a@.len(),
            n == b@.len(),
            i <= n,
            forall|j: int| 0 <= j < i ==> a@[j] == b@[j],
        decreases n - i,
    {
        if a.get_char(i) != b.get_char(i) {
            return false;
        }
        i = i + 1;
    }
    assert(a@ =~= b@);
    true
}

/// The language that a lower-case key names, if any.
pub fn language_of(key: &str) -> (r: Option<SourceLanguage>)
    ensures
        r == language_spec(key@),
{
    proof {
        reveal_strlit("ts");
        reveal_strlit("typescript");
        reveal_strlit("tsx");
        reveal_strlit("rs");
        reveal_strlit("rust");
        reveal_strlit("c");
        assert("ts"@ =~= seq!['t', 's']);
        assert("typescript"@ =~= seq!['t', 'y', 'p', 'e', 's', 'c', 'r', 'i', 'p', 't']);
        assert("tsx"@ =~= seq!['t', 's', 'x']);
        assert("rs"@ =~= seq!['r', 's']);
        assert("rust"@ =~= seq!['r', 'u', 's', 't']);
        assert("c"@ =~= seq!['c']);
    }
    if same_chars(key, "ts") || same_chars(key, "typescript") {
        Some(SourceLanguage::TypeScript)
    } else if same_chars(key, "tsx") {
        Some(SourceLanguage::Tsx)
    } else if same_chars(key, "rs") || same_chars(key, "rust") {
        Some(SourceLanguage::Rust)
    } else if same_chars(key, "c") {
        Some(SourceLanguage::C)
    } else {
        None
    }
}

/// The language that a key names, whatever the case of its letters.
pub fn select_language(key: &str) -> (r: Option<SourceLanguage>)
    ensures
        r == language_spec(lower_of(key@)),
{
    let lower = lowercase(key);
    language_of(lower.as_str())
}

} // verus!
