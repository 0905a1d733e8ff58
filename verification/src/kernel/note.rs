//! The note model: a parsed Markdown file with its frontmatter, links, tags,
//! tasks and headings.

use vstd::prelude::*;
use crate::kernel::markdown::{
    body_headings, body_links, body_tasks, extract_headings, extract_links, extract_tags,
    extract_tasks, count_words_exec, inline_tags, word_count, HeadingSpec, LinkSpec, TaskSpec,
};
use crate::kernel::paths::{file_stem, note_name_of};
use crate::kernel::text::{
    chars_of, copy_chars, eq_exec, lemma_views_push, find, find_from_exec, join, join_exec, lemma_find_from, slice, sort_dedup,
    sorted_unique, starts_with, starts_with_exec, string_of, trim_start_char, trim_start_char_exec,
    views,
};
use crate::kernel::yaml::{fm_views, frontmatter_from_yaml, yaml_frontmatter};

verus! {

/// The view of an optional string.
pub open spec fn opt_view(o: Option<String>) -> Option<Seq<char>> {
    match o {
        Some(s) => Some(s@),
        None => None,
    }
}

/// The views of a sequence of strings.
pub open spec fn str_views(v: Seq<String>) -> Seq<Seq<char>> {
    v.map_values(|s: String| s@)
}

pub proof fn lemma_str_views_push(s: Seq<String>, x: String)
    ensures
        str_views(s.push(x)) == str_views(s).push(x@),
{
    assert(str_views(s.push(x)) =~= str_views(s).push(x@));
}

/// A wikilink reference.
#[derive(Debug, Clone)]
pub struct Wikilink {
    /// The target note name/path.
    pub target: String,
    /// Display text (if different from target).
    pub display: Option<String>,
    /// Block reference (if any).
    pub block_ref: Option<String>,
    /// Heading reference (if any).
    pub heading_ref: Option<String>,
    /// Is this an embedded link (`![[...]]`)?
    pub is_embed: bool,
    /// Line number where the link appears.
    pub line: usize,
}

impl View for Wikilink {
    type V = LinkSpec;

    open spec fn view(&self) -> LinkSpec {
        LinkSpec {
            target: self.target@,
            display: opt_view(self.display),
            block_ref: opt_view(self.block_ref),
            heading_ref: opt_view(self.heading_ref),
            is_embed: self.is_embed,
            line: self.line as nat,
        }
    }
}

/// The views of a sequence of links.
pub open spec fn link_views(v: Seq<Wikilink>) -> Seq<LinkSpec> {
    v.map_values(|l: Wikilink| l@)
}

/// A task item.
#[derive(Debug, Clone)]
pub struct Task {
    /// Task text.
    pub text: String,
    /// Is it completed?
    pub done: bool,
    /// Line number.
    pub line: usize,
    /// Indentation (bytes of leading whitespace).
    pub indent: usize,
    /// Tags within the task.
    pub tags: Vec<String>,
}

impl View for Task {
    type V = TaskSpec;

    open spec fn view(&self) -> TaskSpec {
        TaskSpec {
            text: self.text@,
            done: self.done,
            line: self.line as nat,
            indent: self.indent as nat,
            tags: str_views(self.tags@),
        }
    }
}

/// The views of a sequence of tasks.
pub open spec fn task_views(v: Seq<Task>) -> Seq<TaskSpec> {
    v.map_values(|t: Task| t@)
}

/// A heading.
#[derive(Debug, Clone)]
pub struct Heading {
    /// Heading text.
    pub text: String,
    /// Heading level (1-6).
    pub level: u8,
    /// Line number.
    pub line: usize,
}

impl View for Heading {
    type V = HeadingSpec;

    open spec fn view(&self) -> HeadingSpec {
        HeadingSpec { text: self.text@, level: self.level as nat, line: self.line as nat }
    }
}

/// The views of a sequence of headings.
pub open spec fn heading_views(v: Seq<Heading>) -> Seq<HeadingSpec> {
    v.map_values(|h: Heading| h@)
}

// ---------------------------------------------------------------------------
// Frontmatter values
// ---------------------------------------------------------------------------

/// A frontmatter value. Numbers are held as the text they display as; the
/// entries of a nested mapping are not kept, since only its kind is read.
#[derive(Debug, Clone)]
pub enum FrontmatterValue {
    String(String),
    Number(String),
    Bool(bool),
    Array(Vec<String>),
    Mapping,
    Null,
}

/// A frontmatter value as plain values.
pub enum FmSpec {
    Str(Seq<char>),
    Num(Seq<char>),
    Bool(bool),
    Arr(Seq<Seq<char>>),
    Mapping,
    Null,
}

impl View for FrontmatterValue {
    type V = FmSpec;

    open spec fn view(&self) -> FmSpec {
        match self {
            FrontmatterValue::String(s) => FmSpec::Str(s@),
            FrontmatterValue::Number(t) => FmSpec::Num(t@),
            FrontmatterValue::Bool(b) => FmSpec::Bool(*b),
            FrontmatterValue::Array(a) => FmSpec::Arr(str_views(a@)),
            FrontmatterValue::Mapping => FmSpec::Mapping,
            FrontmatterValue::Null => FmSpec::Null,
        }
    }
}

/// `[`, `, ` and `]` around a list, as displayed.
pub open spec fn comma_sep() -> Seq<char> {
    seq![',', ' ']
}

/// The text a frontmatter value is displayed as.
pub open spec fn fm_display(v: FmSpec) -> Seq<char> {
    match v {
        FmSpec::Str(s) => s,
        FmSpec::Num(t) => t,
        FmSpec::Bool(b) => if b {
            seq!['t', 'r', 'u', 'e']
        } else {
            seq!['f', 'a', 'l', 's', 'e']
        },
        FmSpec::Arr(a) => seq!['['] + join(a, comma_sep()) + seq![']'],
        FmSpec::Mapping => seq!['{', '.', '.', '.', '}'],
        FmSpec::Null => seq!['n', 'u', 'l', 'l'],
    }
}

/// Copies strings into character vectors.
pub fn to_char_vecs(v: &Vec<String>) -> (r: Vec<Vec<char>>)
    ensures
        views(r@) == str_views(v@),
{
    let mut out: Vec<Vec<char>> = Vec::new();
    let mut i: usize = 0;
    while i < v.len()
        invariant
            i <= v.len(),
            views(out@) == str_views(v@).subrange(0, i as int),
        decreases v.len() - i,
    {
        let c = chars_of(v[i].as_str());
        assert(c@ == str_views(v@)[i as int]);
        proof {
            lemma_views_push(out@, c);
        }
        out.push(c);
        assert(views(out@) =~= str_views(v@).subrange(0, i + 1));
        i = i + 1;
    }
    assert(str_views(v@).subrange(0, v.len() as int) =~= str_views(v@));
    out
}

/// Copies character vectors into strings.
pub fn to_strings(v: &Vec<Vec<char>>) -> (r: Vec<String>)
    ensures
        str_views(r@) == views(v@),
{
    let mut out: Vec<String> = Vec::new();
    let mut i: usize = 0;
    while i < v.len()
        invariant
            i <= v.len(),
            str_views(out@) == views(v@).subrange(0, i as int),
        decreases v.len() - i,
    {
        let s = string_of(&v[i]);
        assert(s@ == views(v@)[i as int]);
        proof {
            lemma_str_views_push(out@, s);
        }
        out.push(s);
        assert(str_views(out@) =~= views(v@).subrange(0, i + 1));
        i = i + 1;
    }
    assert(views(v@).subrange(0, v.len() as int) =~= views(v@));
    out
}

impl FrontmatterValue {
    /// The string, if this is a string value.
    pub fn as_str(&self) -> (r: Option<&str>)
        ensures
            match self@ {
                FmSpec::Str(s) => r matches Some(t) && t@ == s,
                _ => r is None,
            },
    {
        match self {
            FrontmatterValue::String(s) => Some(s.as_str()),
            _ => None,
        }
    }

    /// The list, if this is a list value.
    pub fn as_array(&self) -> (r: Option<&Vec<String>>)
        ensures
            match self@ {
                FmSpec::Arr(a) => r matches Some(t) && str_views(t@) == a,
                _ => r is None,
            },
    {
        match self {
            FrontmatterValue::Array(a) => Some(a),
            _ => None,
        }
    }

    /// The text the value is displayed as.
    pub fn to_display_string(&self) -> (r: String)
        ensures
            r@ == fm_display(self@),
    {
        match self {
            FrontmatterValue::String(s) => s.clone(),
            FrontmatterValue::Number(t) => t.clone(),
            FrontmatterValue::Bool(b) => {
                if *b {
                    let v = vec!['t', 'r', 'u', 'e'];
                    assert(v@ =~= seq!['t', 'r', 'u', 'e']);
                    string_of(&v)
                } else {
                    let v = vec!['f', 'a', 'l', 's', 'e'];
                    assert(v@ =~= seq!['f', 'a', 'l', 's', 'e']);
                    string_of(&v)
                }
            },
            FrontmatterValue::Array(a) => {
                let parts = to_char_vecs(a);
                let sep = vec![',', ' '];
                assert(sep@ =~= comma_sep());
                let inner = join_exec(&parts, &sep);
                let mut out = vec!['['];
                crate::kernel::text::push_all(&mut out, &inner);
                out.push(']');
                assert(out@ =~= seq!['['] + join(str_views(a@), comma_sep()) + seq![']']);
                string_of(&out)
            },
            FrontmatterValue::Mapping => {
                let v = vec!['{', '.', '.', '.', '}'];
                assert(v@ =~= seq!['{', '.', '.', '.', '}']);
                string_of(&v)
            },
            FrontmatterValue::Null => {
                let v = vec!['n', 'u', 'l', 'l'];
                assert(v@ =~= seq!['n', 'u', 'l', 'l']);
                string_of(&v)
            },
        }
    }
}

/// Keys of a frontmatter list are distinct.
pub open spec fn keys_unique(fm: Seq<(String, FrontmatterValue)>) -> bool {
    forall|i: int, j: int| 0 <= i < j < fm.len() ==> (#[trigger] fm[i]).0@ != (#[trigger] fm[j]).0@
}

/// The value of the first entry with key `key`.
pub open spec fn fm_get(fm: Seq<(String, FrontmatterValue)>, key: Seq<char>) -> Option<FmSpec>
    decreases fm.len(),
{
    if fm.len() == 0 {
        None
    } else if fm[0].0@ == key {
        Some(fm[0].1@)
    } else {
        fm_get(fm.drop_first(), key)
    }
}

/// Index of the first entry with key `key`.
pub fn find_key(fm: &Vec<(String, FrontmatterValue)>, key: &[char]) -> (r: Option<usize>)
    ensures
        match r {
            Some(i) => i < fm.len() && fm@[i as int].0@ == key@ && forall|m: int|
                0 <= m < i ==> (#[trigger] fm@[m]).0@ != key@,
            None => forall|m: int| 0 <= m < fm.len() ==> (#[trigger] fm@[m]).0@ != key@,
        },
        match r {
            Some(i) => fm_get(fm@, key@) == Some(fm@[i as int].1@),
            None => fm_get(fm@, key@) is None,
        },
{
    let mut i: usize = 0;
    assert(fm@.subrange(0, fm.len() as int) =~= fm@);
    while i < fm.len()
        invariant
            i <= fm.len(),
            forall|m: int| 0 <= m < i ==> (#[trigger] fm@[m]).0@ != key@,
            fm_get(fm@, key@) == fm_get(fm@.subrange(i as int, fm.len() as int), key@),
        decreases fm.len() - i,
    {
        let kc = chars_of(fm[i].0.as_str());
        assert(fm@.subrange(i as int, fm.len() as int)[0] == fm@[i as int]);
        if eq_exec(&kc, key) {
            return Some(i);
        }
        assert(fm@.subrange(i as int, fm.len() as int).drop_first() =~= fm@.subrange(
            i + 1,
            fm.len() as int,
        ));
        i = i + 1;
    }
    None
}

/// `tags` as characters.
pub open spec fn tags_key() -> Seq<char> {
    seq!['t', 'a', 'g', 's']
}

/// The tags listed in the frontmatter: the `tags` entry when it is a list.
pub open spec fn fm_tags(fm: Seq<(String, FrontmatterValue)>) -> Seq<Seq<char>> {
    match fm_get(fm, tags_key()) {
        Some(FmSpec::Arr(a)) => a,
        _ => Seq::empty(),
    }
}

// ---------------------------------------------------------------------------
// Frontmatter block
// ---------------------------------------------------------------------------

/// `---`.
pub open spec fn dashes() -> Seq<char> {
    seq!['-', '-', '-']
}

/// `\n---`, which closes a frontmatter block.
pub open spec fn fm_close() -> Seq<char> {
    seq!['\n', '-', '-', '-']
}

/// Where the frontmatter block of `raw` is closed: `raw` starts with `---`
/// and `\n---` occurs after those three characters; the index of that `\n`.
pub open spec fn fm_end(raw: Seq<char>) -> Option<nat> {
    if starts_with(raw, dashes()) {
        match find(raw.subrange(3, raw.len() as int), fm_close()) {
            Some(e) => Some(e + 3),
            None => None,
        }
    } else {
        None
    }
}

/// The YAML text of the frontmatter block, if there is one.
pub open spec fn fm_yaml(raw: Seq<char>) -> Option<Seq<char>> {
    match fm_end(raw) {
        Some(e) => Some(raw.subrange(3, e as int)),
        None => None,
    }
}

/// The body of a note: what follows the frontmatter block with leading
/// newlines removed, or the whole text when there is no block.
pub open spec fn fm_body(raw: Seq<char>) -> Seq<char> {
    match fm_end(raw) {
        Some(e) => trim_start_char(raw.subrange(e + 4int, raw.len() as int), '\n'),
        None => raw,
    }
}

pub proof fn lemma_fm_end(raw: Seq<char>)
    ensures
        fm_end(raw) matches Some(e) ==> 3 <= e && e + 4 <= raw.len() && raw.subrange(
            e as int,
            e + 4int,
        ) == fm_close() && starts_with(raw, dashes()),
{
    if starts_with(raw, dashes()) {
        let t = raw.subrange(3, raw.len() as int);
        lemma_find_from(t, fm_close(), 0);
        if let Some(e) = find(t, fm_close()) {
            assert(raw.subrange(e + 3int, e + 7int) =~= t.subrange(e as int, e + 4int));
        }
    }
}

/// Exec form of [`fm_end`].
pub fn fm_end_exec(raw: &[char]) -> (r: Option<usize>)
    ensures
        match r {
            Some(e) => fm_end(raw@) == Some(e as nat),
            None => fm_end(raw@) is None,
        },
{
    proof {
        lemma_fm_end(raw@);
    }
    let d = vec!['-', '-', '-'];
    assert(d@ =~= dashes());
    if !starts_with_exec(raw, &d) {
        return None;
    }
    let t = slice(raw, 3, raw.len());
    let c = vec!['\n', '-', '-', '-'];
    assert(c@ =~= fm_close());
    proof {
        lemma_find_from(t@, c@, 0);
    }
    match find_from_exec(&t, &c, 0) {
        Some(e) => Some(e + 3),
        None => None,
    }
}

// ---------------------------------------------------------------------------
// Notes
// ---------------------------------------------------------------------------

/// A parsed Obsidian note.
#[derive(Debug, Clone)]
pub struct Note {
    /// File path.
    pub path: String,
    /// Note name (file name without extension).
    pub name: String,
    /// Frontmatter properties, in document order.
    pub frontmatter: Vec<(String, FrontmatterValue)>,
    /// Body content (without frontmatter).
    pub body: String,
    /// Raw content (full file).
    pub raw: String,
    /// Wikilinks found in the note.
    pub wikilinks: Vec<Wikilink>,
    /// Tags found in the note (sorted, no repeats).
    pub tags: Vec<String>,
    /// Tasks found in the note.
    pub tasks: Vec<Task>,
    /// Headings found in the note.
    pub headings: Vec<Heading>,
    /// Word count.
    pub word_count: usize,
    /// Character count.
    pub char_count: usize,
    /// File creation time (seconds since the Unix epoch), when known.
    pub created: Option<i64>,
    /// File modification time (seconds since the Unix epoch), when known.
    pub modified: Option<i64>,
}

/// What parsing `raw` at `path` gives, field by field: the frontmatter
/// entries are those `serde_yaml` reads from the block's text (see
/// [`yaml_frontmatter`]); the file times are left unset.
pub open spec fn parsed(n: Note, path: Seq<char>, raw: Seq<char>) -> bool {
    let body = fm_body(raw);
    &&& n.path@ == path
    &&& n.name@ == note_name_of(path)
    &&& n.raw@ == raw
    &&& n.body@ == body
    &&& keys_unique(n.frontmatter@)
    &&& (fm_yaml(raw) is None ==> n.frontmatter@.len() == 0)
    &&& (fm_yaml(raw) matches Some(y) ==> fm_views(n.frontmatter@) == yaml_frontmatter(y))
    &&& link_views(n.wikilinks@) == body_links(body)
    &&& sorted_unique(str_views(n.tags@))
    &&& str_views(n.tags@).to_set() == (fm_tags(n.frontmatter@) + inline_tags(body)).to_set()
    &&& task_views(n.tasks@) == body_tasks(body)
    &&& heading_views(n.headings@) == body_headings(body)
    &&& n.word_count == word_count(body)
    &&& n.char_count == body.len()
    &&& n.created is None
    &&& n.modified is None
}

impl Note {
    /// Parses a note from its path and content. The note's name is the
    /// file stem of the path; the frontmatter block (if any) is read as
    /// YAML; links, tasks and headings come from the body line by line; the
    /// tags are the frontmatter `tags` list and the inline tags, sorted,
    /// without repeats.
    pub fn parse_str(path: &str, raw: &str) -> (r: Note)
        requires
            raw@.len() < usize::MAX / 4,
        ensures
            parsed(r, path@, raw@),
    {
        let name = match file_stem(path) {
            Some(s) => s,
            None => String::new(),
        };
        let rc = chars_of(raw);
        proof {
            lemma_fm_end(rc@);
        }
        let (frontmatter, body) = match fm_end_exec(&rc) {
            Some(e) => {
                let yaml = string_of(&slice(&rc, 3, e));
                let body = trim_start_char_exec(&slice(&rc, e + 4, rc.len()), '\n');
                (frontmatter_from_yaml(yaml.as_str()), body)
            },
            None => (Vec::new(), slice(&rc, 0, rc.len())),
        };
        assert(rc@.subrange(0, rc.len() as int) =~= rc@);
        proof {
            lemma_trim_start_char_len(fm_body(raw@), raw@);
        }
        let wikilinks = extract_links(&body);
        let mut tag_chars: Vec<Vec<char>> = Vec::new();
        let mut tagset_fm: Vec<Vec<char>> = Vec::new();
        let kt = vec!['t', 'a', 'g', 's'];
        assert(kt@ =~= tags_key());
        match find_key(&frontmatter, &kt) {
            Some(i) => {
                match &frontmatter[i].1 {
                    FrontmatterValue::Array(a) => {
                        tagset_fm = to_char_vecs(a);
                    },
                    _ => {},
                }
            },
            None => {},
        }
        assert(views(tagset_fm@) == fm_tags(frontmatter@));
        let inline = to_char_vecs(&extract_tags(&body, true));
        let mut i: usize = 0;
        while i < tagset_fm.len()
            invariant
                i <= tagset_fm.len(),
                views(tag_chars@) == views(tagset_fm@).subrange(0, i as int),
            decreases tagset_fm.len() - i,
        {
            let c = copy_chars(&tagset_fm[i]);
            assert(c@ == views(tagset_fm@)[i as int]);
            proof {
                lemma_views_push(tag_chars@, c);
            }
            tag_chars.push(c);
            assert(views(tag_chars@) =~= views(tagset_fm@).subrange(0, i + 1));
            i = i + 1;
        }
        let mut j: usize = 0;
        while j < inline.len()
            invariant
                j <= inline.len(),
                i == tagset_fm.len(),
                views(tag_chars@) == views(tagset_fm@) + views(inline@).subrange(0, j as int),
            decreases inline.len() - j,
        {
            let c = copy_chars(&inline[j]);
            assert(c@ == views(inline@)[j as int]);
            proof {
                lemma_views_push(tag_chars@, c);
            }
            tag_chars.push(c);
            assert(views(tag_chars@) =~= views(tagset_fm@) + views(inline@).subrange(0, j + 1));
            j = j + 1;
        }
        assert(views(tagset_fm@).subrange(0, i as int) =~= views(tagset_fm@));
        assert(views(inline@).subrange(0, j as int) =~= views(inline@));
        let tags = to_strings(&sort_dedup(&tag_chars));
        let tasks = extract_tasks(&body);
        let headings = extract_headings(&body);
        let word_count = count_words_exec(&body);
        let char_count = body.len();
        Note {
            path: string_of(&chars_of(path)),
            name,
            frontmatter,
            body: string_of(&body),
            raw: string_of(&rc),
            wikilinks,
            tags,
            tasks,
            headings,
            word_count,
            char_count,
            created: None,
            modified: None,
        }
    }
}

/// Removing leading newlines does not make a text longer.
pub proof fn lemma_trim_start_char_len(t: Seq<char>, raw: Seq<char>)
    ensures
        t == fm_body(raw) ==> t.len() <= raw.len(),
{
    lemma_fm_end(raw);
    if let Some(e) = fm_end(raw) {
        lemma_trim_start_char_shorter(raw.subrange(e + 4int, raw.len() as int), '\n');
    }
}

/// `trim_start_char` does not make a text longer.
pub proof fn lemma_trim_start_char_shorter(s: Seq<char>, c: char)
    ensures
        trim_start_char(s, c).len() <= s.len(),
    decreases s.len(),
{
    if s.len() > 0 && s[0] == c {
        lemma_trim_start_char_shorter(s.drop_first(), c);
    }
}

/// `aliases` as characters.
pub open spec fn aliases_key() -> Seq<char> {
    seq!['a', 'l', 'i', 'a', 's', 'e', 's']
}

/// A list property read as strings: a list as it is, a string as a
/// one-element list, anything else (or nothing) as the empty list.
pub open spec fn list_property(v: Option<FmSpec>) -> Seq<Seq<char>> {
    match v {
        Some(FmSpec::Arr(a)) => a,
        Some(FmSpec::Str(s)) => seq![s],
        _ => Seq::empty(),
    }
}

impl Note {
    /// The display text of property `key`, if the frontmatter has it.
    pub fn property(&self, key: &str) -> (r: Option<String>)
        ensures
            match fm_get(self.frontmatter@, key@) {
                Some(v) => r matches Some(s) && s@ == fm_display(v),
                None => r is None,
            },
    {
        let kc = chars_of(key);
        match find_key(&self.frontmatter, &kc) {
            Some(i) => Some(self.frontmatter[i].1.to_display_string()),
            None => None,
        }
    }

    fn list_property_exec(&self, key: &[char]) -> (r: Vec<String>)
        ensures
            str_views(r@) == list_property(fm_get(self.frontmatter@, key@)),
    {
        match find_key(&self.frontmatter, key) {
            Some(i) => match &self.frontmatter[i].1 {
                FrontmatterValue::Array(a) => copy_strings(a),
                FrontmatterValue::String(s) => {
                    let mut v: Vec<String> = Vec::new();
                    v.push(s.clone());
                    assert(str_views(v@) =~= seq![s@]);
                    v
                },
                _ => {
                    let v: Vec<String> = Vec::new();
                    assert(str_views(v@) =~= Seq::<Seq<char>>::empty());
                    v
                },
            },
            None => {
                let v: Vec<String> = Vec::new();
                assert(str_views(v@) =~= Seq::<Seq<char>>::empty());
                v
            },
        }
    }

    /// The `tags` property as a list (a single string becomes a list of one).
    pub fn property_tags(&self) -> (r: Vec<String>)
        ensures
            str_views(r@) == list_property(fm_get(self.frontmatter@, tags_key())),
    {
        let k = vec!['t', 'a', 'g', 's'];
        assert(k@ =~= tags_key());
        self.list_property_exec(&k)
    }

    /// The note's aliases: the `aliases` property as a list.
    pub fn aliases(&self) -> (r: Vec<String>)
        ensures
            str_views(r@) == list_property(fm_get(self.frontmatter@, aliases_key())),
    {
        let k = vec!['a', 'l', 'i', 'a', 's', 'e', 's'];
        assert(k@ =~= aliases_key());
        self.list_property_exec(&k)
    }

    /// Whether the note has tag `tag`.
    pub fn has_tag(&self, tag: &str) -> (r: bool)
        ensures
            r == str_views(self.tags@).contains(tag@),
    {
        contains_string(&self.tags, tag)
    }

    /// All tasks.
    pub fn get_tasks(&self) -> (r: &[Task])
        ensures
            r@ == self.tasks@,
    {
        self.tasks.as_slice()
    }

    /// The tasks not yet done, in order.
    pub fn pending_tasks(&self) -> (r: Vec<&Task>)
        ensures
            r@.map_values(|t: &Task| *t) == self.tasks@.filter(|t: Task| !t.done),
    {
        let mut out: Vec<&Task> = Vec::new();
        let mut i: usize = 0;
        while i < self.tasks.len()
            invariant
                i <= self.tasks.len(),
                out@.map_values(|t: &Task| *t) == self.tasks@.subrange(0, i as int).filter(
                    |t: Task| !t.done,
                ),
            decreases self.tasks.len() - i,
        {
            proof {
                reveal_with_fuel(Seq::filter, 1);
                assert(self.tasks@.subrange(0, i + 1).drop_last() =~= self.tasks@.subrange(
                    0,
                    i as int,
                ));
            }
            if !self.tasks[i].done {
                out.push(&self.tasks[i]);
            }
            assert(out@.map_values(|t: &Task| *t) =~= self.tasks@.subrange(0, i + 1).filter(
                |t: Task| !t.done,
            ));
            i = i + 1;
        }
        assert(self.tasks@.subrange(0, self.tasks.len() as int) =~= self.tasks@);
        out
    }
}

/// A copy of a list of strings.
pub fn copy_strings(v: &Vec<String>) -> (r: Vec<String>)
    ensures
        str_views(r@) == str_views(v@),
{
    let mut out: Vec<String> = Vec::new();
    let mut i: usize = 0;
    while i < v.len()
        invariant
            i <= v.len(),
            str_views(out@) == str_views(v@).subrange(0, i as int),
        decreases v.len() - i,
    {
        let s = v[i].clone();
        proof {
            lemma_str_views_push(out@, s);
        }
        out.push(s);
        assert(str_views(out@) =~= str_views(v@).subrange(0, i + 1));
        i = i + 1;
    }
    assert(str_views(v@).subrange(0, v.len() as int) =~= str_views(v@));
    out
}

/// Whether `v` holds a string equal to `s`.
pub fn contains_string(v: &[String], s: &str) -> (r: bool)
    ensures
        r == str_views(v@).contains(s@),
{
    let sc = chars_of(s);
    let mut i: usize = 0;
    while i < v.len()
        invariant
            i <= v.len(),
            sc@ == s@,
            forall|m: int| 0 <= m < i ==> (#[trigger] str_views(v@)[m]) != s@,
        decreases v.len() - i,
    {
        let c = chars_of(v[i].as_str());
        if eq_exec(&c, &sc) {
            assert(str_views(v@)[i as int] == s@);
            return true;
        }
        i = i + 1;
    }
    false
}

} // verus!
