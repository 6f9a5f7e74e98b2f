use vstd::prelude::*;

verus! {

/// Which token classes the highlighter recognises for a content type,
/// and the keyword list it matches literally.
pub struct HighlightingOptions {
    numbers: bool,
    strings: bool,
    characters: bool,
    comments: bool,
    keywords_primary: Vec<String>,
}

impl HighlightingOptions {
    pub closed spec fn spec_numbers(&self) -> bool {
        self.numbers
    }

    pub closed spec fn spec_strings(&self) -> bool {
        self.strings
    }

    pub closed spec fn spec_characters(&self) -> bool {
        self.characters
    }

    pub closed spec fn spec_comments(&self) -> bool {
        self.comments
    }

    /// The keyword list as a sequence of character sequences.
    pub closed spec fn spec_keywords_primary(&self) -> Seq<Seq<char>> {
        self.keywords_primary.deep_view()
    }

    pub fn numbers(&self) -> (b: bool)
        ensures
            b == self.spec_numbers(),
    {
        self.numbers
    }

    pub fn strings(&self) -> (b: bool)
        ensures
            b == self.spec_strings(),
    {
        self.strings
    }

    pub fn characters(&self) -> (b: bool)
        ensures
            b == self.spec_characters(),
    {
        self.characters
    }

    pub fn comments(&self) -> (b: bool)
        ensures
            b == self.spec_comments(),
    {
        self.comments
    }

    pub fn keywords_primary(&self) -> (ks: &Vec<String>)
        ensures
            ks.deep_view() == self.spec_keywords_primary(),
    {
        &self.keywords_primary
    }
}

impl Default for HighlightingOptions {
    /// No token class is recognised and the keyword list is empty.
    fn default() -> (o: HighlightingOptions)
        ensures
            !o.spec_numbers(),
            !o.spec_strings(),
            !o.spec_characters(),
            !o.spec_comments(),
            o.spec_keywords_primary() == Seq::<Seq<char>>::empty(),
    {
        let o = HighlightingOptions {
            numbers: false,
            strings: false,
            characters: false,
            comments: false,
            keywords_primary: Vec::new(),
        };
        proof {
            assert(o.spec_keywords_primary() =~= Seq::<Seq<char>>::empty());
        }
        o
    }
}

/// The primary keywords recognised in Rust sources.
pub open spec fn rust_keywords() -> Seq<Seq<char>> {
    seq![
        "fn"@,
        "struct"@,
        "enum"@,
        "trait"@,
        "impl"@,
        "use"@,
        "mod"@,
        "pub"@,
        "let"@,
        "mut"@,
        "if"@,
        "else"@,
        "match"@,
        "while"@,
        "for"@,
        "loop"@,
        "return"@,
        "true"@,
        "false"@,
    ]
}

/// A content type: a display name and the highlighting configuration
/// chosen for it.
pub struct FileType {
    name: String,
    hl_opts: HighlightingOptions,
}

/// Whether a file name carries the Rust source extension `.rs`.
pub open spec fn is_rust_file(name: Seq<char>) -> bool {
    name.len() >= 3 && name[name.len() - 3] == '.' && name[name.len() - 2] == 'r' && name[
        name.len() - 1] == 's'
}

impl FileType {
    pub closed spec fn spec_name(&self) -> Seq<char> {
        self.name@
    }

    pub closed spec fn spec_options(&self) -> HighlightingOptions {
        self.hl_opts
    }

    pub fn name(&self) -> (n: &String)
        ensures
            n@ == self.spec_name(),
    {
        &self.name
    }

    pub fn highlighting_options(&self) -> (o: &HighlightingOptions)
        ensures
            o == self.spec_options(),
    {
        &self.hl_opts
    }

    /// Chooses the content type from the file name: `.rs` selects Rust
    /// with every token class active, anything else stays plain text.
    pub fn from(file_name: &str) -> (t: FileType)
        ensures
            is_rust_file(file_name@) ==> t.spec_name() == "Rust"@
                && t.spec_options().spec_numbers() && t.spec_options().spec_strings()
                && t.spec_options().spec_characters() && t.spec_options().spec_comments()
                && t.spec_options().spec_keywords_primary() == rust_keywords(),
            !is_rust_file(file_name@) ==> t.spec_name() == "No filetype"@
                && !t.spec_options().spec_numbers() && !t.spec_options().spec_strings()
                && !t.spec_options().spec_characters() && !t.spec_options().spec_comments()
                && t.spec_options().spec_keywords_primary() == Seq::<Seq<char>>::empty(),
    {
        let n: usize = file_name.unicode_len();
        if n >= 3 && file_name.get_char(n - 3) == '.' && file_name.get_char(n - 2) == 'r'
            && file_name.get_char(n - 1) == 's' {
            FileType { name: String::from_str("Rust"), hl_opts: rust_options() }
        } else {
            FileType::default()
        }
    }
}

impl Default for FileType {
    /// Plain text: no token class recognised.
    fn default() -> (t: FileType)
        ensures
            t.spec_name() == "No filetype"@,
            !t.spec_options().spec_numbers(),
            !t.spec_options().spec_strings(),
            !t.spec_options().spec_characters(),
            !t.spec_options().spec_comments(),
            t.spec_options().spec_keywords_primary() == Seq::<Seq<char>>::empty(),
    {
        FileType { name: String::from_str("No filetype"), hl_opts: HighlightingOptions::default() }
    }
}

/// The configuration used for Rust sources: every token class active
/// and the Rust keyword list.
fn rust_options() -> (o: HighlightingOptions)
    ensures
        o.spec_numbers(),
        o.spec_strings(),
        o.spec_characters(),
        o.spec_comments(),
        o.spec_keywords_primary() == rust_keywords(),
{
    let mut ks: Vec<String> = Vec::new();
    ks.push(String::from_str("fn"));
    ks.push(String::from_str("struct"));
    ks.push(String::from_str("enum"));
    ks.push(String::from_str("trait"));
    ks.push(String::from_str("impl"));
    ks.push(String::from_str("use"));
    ks.push(String::from_str("mod"));
    ks.push(String::from_str("pub"));
    ks.push(String::from_str("let"));
    ks.push(String::from_str("mut"));
    ks.push(String::from_str("if"));
    ks.push(String::from_str("else"));
    ks.push(String::from_str("match"));
    ks.push(String::from_str("while"));
    ks.push(String::from_str("for"));
    ks.push(String::from_str("loop"));
    ks.push(String::from_str("return"));
    ks.push(String::from_str("true"));
    ks.push(String::from_str("false"));
    let o = HighlightingOptions {
        numbers: true,
        strings: true,
        characters: true,
        comments: true,
        keywords_primary: ks,
    };
    proof {
        assert(o.spec_keywords_primary() =~= rust_keywords());
    }
    o
}

} // verus!
