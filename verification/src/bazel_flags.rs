//! The flag knowledge base: a queryable database of Bazel flag descriptors
//! for one tool version, with indices by name, abbreviation and historical
//! name, and per-command flag sets including the synthesized `common` and
//! `always` pseudo-commands.

use vstd::prelude::*;

use crate::text::{chars_eq_str, contains_str, str_eq};
use vstd::string::*;

verus! {

/// One flag descriptor, as delivered by the packaged, versioned dataset.
/// Several descriptors may share a name when the flag's behaviour changed
/// between tool versions; `bazel_versions` lists the versions this exact
/// descriptor variant is valid for.
#[derive(Clone, Debug, PartialEq)]
pub struct FlagInfo {
    /// Name of the flag, without leading dashes.
    pub name: String,
    /// True if `--no<name>` exists, too.
    pub has_negative_flag: Option<bool>,
    /// Help text of the flag.
    pub documentation: Option<String>,
    /// The commands supporting this flag, e.g. `build`, `test`.
    pub commands: Vec<String>,
    /// Flag name abbreviation, without the leading dash.
    pub abbreviation: Option<String>,
    /// True if the flag may occur multiple times in one argument list.
    pub allows_multiple: Option<bool>,
    /// The effect tags associated with the flag.
    pub effect_tags: Vec<String>,
    /// The metadata tags associated with the flag.
    pub metadata_tags: Vec<String>,
    /// The documentation category assigned to this flag.
    pub documentation_category: Option<String>,
    /// Whether the flag always consumes a value.
    pub requires_value: Option<bool>,
    /// The old, deprecated name of this flag, without leading dashes.
    pub old_name: Option<String>,
    /// The deprecation warning of this flag, if one is present.
    pub deprecation_warning: Option<String>,
    /// The tool versions this descriptor applies to.
    pub bazel_versions: Vec<String>,
}

/// Mathematical counterpart of [`FlagInfo`].
#[verifier::ext_equal]
pub struct FlagInfoV {
    pub name: Seq<char>,
    pub has_negative_flag: Option<bool>,
    pub documentation: Option<Seq<char>>,
    pub commands: Seq<Seq<char>>,
    pub abbreviation: Option<Seq<char>>,
    pub allows_multiple: Option<bool>,
    pub effect_tags: Seq<Seq<char>>,
    pub metadata_tags: Seq<Seq<char>>,
    pub documentation_category: Option<Seq<char>>,
    pub requires_value: Option<bool>,
    pub old_name: Option<Seq<char>>,
    pub deprecation_warning: Option<Seq<char>>,
    pub bazel_versions: Seq<Seq<char>>,
}

pub open spec fn opt_str_view(o: &Option<String>) -> Option<Seq<char>> {
    match o {
        Some(s) => Some(s@),
        None => None,
    }
}

pub open spec fn strs_view(v: &Vec<String>) -> Seq<Seq<char>> {
    v@.map_values(|s: String| s@)
}

impl View for FlagInfo {
    type V = FlagInfoV;

    open spec fn view(&self) -> FlagInfoV {
        FlagInfoV {
            name: self.name@,
            has_negative_flag: self.has_negative_flag,
            documentation: opt_str_view(&self.documentation),
            commands: strs_view(&self.commands),
            abbreviation: opt_str_view(&self.abbreviation),
            allows_multiple: self.allows_multiple,
            effect_tags: strs_view(&self.effect_tags),
            metadata_tags: strs_view(&self.metadata_tags),
            documentation_category: opt_str_view(&self.documentation_category),
            requires_value: self.requires_value,
            old_name: opt_str_view(&self.old_name),
            deprecation_warning: opt_str_view(&self.deprecation_warning),
            bazel_versions: strs_view(&self.bazel_versions),
        }
    }
}

/// A collection of flag descriptors spanning several tool versions, as the
/// packaged dataset delivers it, together with the version strings it knows.
#[derive(Clone, Debug, PartialEq)]
pub struct FlagCollection {
    pub flag_infos: Vec<FlagInfo>,
    pub all_bazel_versions: Vec<String>,
}

/// Whether `t` occurs among the character sequences `v`.
pub open spec fn seq_has(v: Seq<Seq<char>>, t: Seq<char>) -> bool {
    exists|i: int| 0 <= i < v.len() && v[i] == t
}

/// `seq_has` over the views of a string vector is element-wise equality.
pub proof fn lemma_strs_view_has(v: &Vec<String>, t: Seq<char>)
    ensures
        seq_has(strs_view(v), t) == (exists|i: int|
            0 <= i < v@.len() && (#[trigger] v@[i])@ == t),
{
    if seq_has(strs_view(v), t) {
        let i = choose|i: int| 0 <= i < strs_view(v).len() && strs_view(v)[i] == t;
        assert(v@[i]@ == t);
    }
    if exists|i: int| 0 <= i < v@.len() && (#[trigger] v@[i])@ == t {
        let i = choose|i: int| 0 <= i < v@.len() && (#[trigger] v@[i])@ == t;
        assert(strs_view(v)[i] == t);
    }
}

impl FlagInfo {
    /// A flag is deprecated when its metadata tags say so.
    pub open spec fn spec_is_deprecated(&self) -> bool {
        seq_has(self@.metadata_tags, "DEPRECATED"@)
    }

    /// Whether this flag is marked deprecated.
    pub fn is_deprecated(&self) -> (r: bool)
        ensures
            r == self.spec_is_deprecated(),
    {
        proof {
            lemma_strs_view_has(&self.metadata_tags, "DEPRECATED"@);
        }
        contains_str(&self.metadata_tags, "DEPRECATED")
    }

    /// A flag is a no-op when its effect tags say so.
    pub open spec fn spec_is_noop(&self) -> bool {
        seq_has(self@.effect_tags, "NO_OP"@)
    }

    /// Whether this flag has no effect.
    pub fn is_noop(&self) -> (r: bool)
        ensures
            r == self.spec_is_noop(),
    {
        proof {
            lemma_strs_view_has(&self.effect_tags, "NO_OP"@);
        }
        contains_str(&self.effect_tags, "NO_OP")
    }

    pub open spec fn spec_supports_command(&self, command: Seq<char>) -> bool {
        command == "common"@ || command == "always"@ || seq_has(self@.commands, command)
    }

    /// Whether this flag may be used on `command`. The pseudo-commands
    /// `common` and `always` accept every flag.
    pub fn supports_command(&self, command: &str) -> (r: bool)
        ensures
            r == self.spec_supports_command(command@),
    {
        proof {
            lemma_strs_view_has(&self.commands, command@);
        }
        str_eq(command, "common") || str_eq(command, "always") || contains_str(
            &self.commands,
            command,
        )
    }

    pub open spec fn spec_requires_value(&self) -> bool {
        self.requires_value == Some(true)
    }

    /// Whether the flag always consumes a value (false when unspecified).
    pub fn get_requires_value(&self) -> (r: bool)
        ensures
            r == self.spec_requires_value(),
    {
        match self.requires_value {
            Some(b) => b,
            None => false,
        }
    }

    pub open spec fn spec_has_negative_flag(&self) -> bool {
        self.has_negative_flag == Some(true)
    }

    /// Whether `--no<name>` exists too (false when unspecified).
    pub fn get_has_negative_flag(&self) -> (r: bool)
        ensures
            r == self.spec_has_negative_flag(),
    {
        match self.has_negative_flag {
            Some(b) => b,
            None => false,
        }
    }
}

/// Markdown escaping: the characters Markdown gives meaning to are
/// backslash-escaped.
pub open spec fn is_markdown_special(c: char) -> bool {
    c == '\\' || c == '`' || c == '*' || c == '_' || c == '#' || c == '+' || c == '-' || c == '.'
        || c == '!' || c == '~' || c == '{' || c == '}' || c == '[' || c == ']' || c == '(' || c
        == ')' || c == '<' || c == '>'
}

pub open spec fn spec_escape_markdown(s: Seq<char>) -> Seq<char>
    decreases s.len(),
{
    if s.len() == 0 {
        Seq::empty()
    } else if is_markdown_special(s.last()) {
        spec_escape_markdown(s.drop_last()) + seq!['\\', s.last()]
    } else {
        spec_escape_markdown(s.drop_last()) + seq![s.last()]
    }
}

/// Escapes a text so that Markdown renders it verbatim.
pub fn escape_markdown(s: &str) -> (r: String)
    ensures
        r@ == spec_escape_markdown(s@),
{
    let n = s.unicode_len();
    let mut out: Vec<char> = Vec::new();
    let mut i: usize = 0;
    proof {
        assert(out@ =~= spec_escape_markdown(s@.take(0)));
    }
    while i < n
        invariant
            i <= n,
            n == s@.len(),
            out@ == spec_escape_markdown(s@.take(i as int)),
        decreases n - i,
    {
        let c = s.get_char(i);
        proof {
            assert(s@.take(i + 1).drop_last() =~= s@.take(i as int));
            assert(s@.take(i + 1).last() == s@[i as int]);
        }
        if c == '\\' || c == '`' || c == '*' || c == '_' || c == '#' || c == '+' || c == '-' || c
            == '.' || c == '!' || c == '~' || c == '{' || c == '}' || c == '[' || c == ']' || c
            == '(' || c == ')' || c == '<' || c == '>' {
            out.push('\\');
            out.push(c);
            proof {
                assert(out@ =~= spec_escape_markdown(s@.take(i + 1)));
            }
        } else {
            out.push(c);
            proof {
                assert(out@ =~= spec_escape_markdown(s@.take(i + 1)));
            }
        }
        i = i + 1;
    }
    proof {
        assert(s@.take(n as int) =~= s@);
    }
    crate::text::chars_to_string(&out)
}

/// The tags joined by a comma and a space, each in its lowercase form.
pub open spec fn spec_join_lower(tags: Seq<Seq<char>>) -> Seq<char>
    decreases tags.len(),
{
    if tags.len() == 0 {
        Seq::empty()
    } else if tags.len() == 1 {
        crate::text::lower_of(tags[0])
    } else {
        spec_join_lower(tags.drop_last()) + seq![',', ' '] + crate::text::lower_of(tags.last())
    }
}

/// Appends the lowercased, comma-joined tags to `out`.
fn push_join_lower(out: &mut Vec<char>, tags: &Vec<String>)
    ensures
        final(out)@ == old(out)@ + spec_join_lower(strs_view(tags)),
{
    let ghost tv = strs_view(tags);
    let n = tags.len();
    let mut i: usize = 0;
    proof {
        assert(spec_join_lower(tv.take(0)) =~= Seq::<char>::empty());
        assert(out@ =~= old(out)@ + spec_join_lower(tv.take(0)));
    }
    while i < n
        invariant
            i <= n,
            n == tags@.len(),
            tv == strs_view(tags),
            out@ == old(out)@ + spec_join_lower(tv.take(i as int)),
        decreases n - i,
    {
        proof {
            assert(tv[i as int] == tags@[i as int]@);
            assert(tv.take(i + 1).drop_last() =~= tv.take(i as int));
            assert(tv.take(i + 1).last() == tv[i as int]);
        }
        if i > 0 {
            out.push(',');
            out.push(' ');
        }
        let lowered = crate::text::to_lowercase_str(tags[i].as_str());
        crate::text::push_str_chars(out, lowered.as_str());
        proof {
            if i == 0 {
                assert(tv.take(1).len() == 1);
            }
            assert(out@ =~= old(out)@ + spec_join_lower(tv.take(i + 1)));
        }
        i = i + 1;
    }
    proof {
        assert(tv.take(n as int) =~= tv);
    }
}

/// The first part of a flag's documentation: its invocation forms and the
/// escaped help text with the product placeholder filled in.
pub open spec fn spec_doc_markdown_head(f: FlagInfoV) -> Seq<char> {
    "`--"@ + f.name + "`"@ + (match f.abbreviation {
        Some(a) => " [`-"@ + a + "`]"@,
        None => Seq::empty(),
    }) + (if f.has_negative_flag == Some(true) {
        ", `--no"@ + f.name + "`"@
    } else {
        Seq::empty()
    }) + (match f.documentation {
        Some(doc) => "\n\n"@ + spec_escape_markdown(
            crate::file_utils::spec_replace_from(doc, 0, "%{product}"@, "Bazel"@),
        ),
        None => Seq::empty(),
    })
}

/// The second part of a flag's documentation: the tag lists in lowercase
/// and the category.
pub open spec fn spec_doc_markdown_tags(f: FlagInfoV) -> Seq<char> {
    (if f.effect_tags.len() > 0 {
        "Effect tags: "@ + spec_join_lower(f.effect_tags) + seq!['\n']
    } else {
        Seq::empty()
    }) + (if f.metadata_tags.len() > 0 {
        "Tags: "@ + spec_join_lower(f.metadata_tags) + seq!['\n']
    } else {
        Seq::empty()
    }) + (match f.documentation_category {
        Some(cat) => "Category: "@ + crate::text::lower_of(cat) + seq!['\n'],
        None => Seq::empty(),
    })
}

/// The Markdown rendering of one flag's documentation: the invocation forms,
/// the help text with the product placeholder filled in and Markdown
/// escaped, and the tag lists in lowercase.
pub open spec fn spec_documentation_markdown(f: FlagInfoV) -> Seq<char> {
    spec_doc_markdown_head(f) + "\n\n"@ + spec_doc_markdown_tags(f)
}

/// Appends the invocation forms and the help text of `f` to `out`.
fn push_doc_head(out: &mut Vec<char>, f: &FlagInfo)
    ensures
        final(out)@ == old(out)@ + spec_doc_markdown_head(f@),
{
    crate::text::push_str_chars(out, "`--");
    crate::text::push_str_chars(out, f.name.as_str());
    crate::text::push_str_chars(out, "`");
    match &f.abbreviation {
        Some(a) => {
            crate::text::push_str_chars(out, " [`-");
            crate::text::push_str_chars(out, a.as_str());
            crate::text::push_str_chars(out, "`]");
        },
        None => {},
    }
    if f.get_has_negative_flag() {
        crate::text::push_str_chars(out, ", `--no");
        crate::text::push_str_chars(out, f.name.as_str());
        crate::text::push_str_chars(out, "`");
    }
    match &f.documentation {
        Some(doc) => {
            crate::text::push_str_chars(out, "\n\n");
            let docv = crate::text::str_chars(doc.as_str());
            let needle = crate::text::str_chars("%{product}");
            let repl = crate::text::str_chars("Bazel");
            proof {
                reveal_strlit("%{product}");
                assert(needle@.len() > 0);
            }
            let substituted = crate::file_utils::replace_all(&docv, &needle, &repl);
            let escaped = escape_markdown(crate::text::chars_to_string(&substituted).as_str());
            crate::text::push_str_chars(out, escaped.as_str());
        },
        None => {},
    }
    proof {
        assert(out@ =~= old(out)@ + spec_doc_markdown_head(f@));
    }
}

/// Appends the tag lists and the category of `f` to `out`.
fn push_doc_tags(out: &mut Vec<char>, f: &FlagInfo)
    ensures
        final(out)@ == old(out)@ + spec_doc_markdown_tags(f@),
{
    if f.effect_tags.len() > 0 {
        crate::text::push_str_chars(out, "Effect tags: ");
        push_join_lower(out, &f.effect_tags);
        out.push('\n');
    }
    if f.metadata_tags.len() > 0 {
        crate::text::push_str_chars(out, "Tags: ");
        push_join_lower(out, &f.metadata_tags);
        out.push('\n');
    }
    match &f.documentation_category {
        Some(cat) => {
            crate::text::push_str_chars(out, "Category: ");
            let lowered = crate::text::to_lowercase_str(cat.as_str());
            crate::text::push_str_chars(out, lowered.as_str());
            out.push('\n');
        },
        None => {},
    }
    proof {
        assert(out@ =~= old(out)@ + spec_doc_markdown_tags(f@));
    }
}

impl FlagInfo {
    /// The Markdown rendering of this flag's documentation: its invocation
    /// forms, its help text, and its tags.
    pub fn get_documentation_markdown(&self) -> (r: String)
        ensures
            r@ == spec_documentation_markdown(self@),
    {
        let mut out: Vec<char> = Vec::new();
        push_doc_head(&mut out, self);
        crate::text::push_str_chars(&mut out, "\n\n");
        push_doc_tags(&mut out, self);
        proof {
            assert(out@ =~= spec_documentation_markdown(self@));
        }
        crate::text::chars_to_string(&out)
    }
}

/// An index from flag-name keys to positions in the flag list. The last
/// entry for a key wins, like repeated insertion into a map.
#[derive(Debug)]
pub struct NameIndex {
    pub entries: Vec<(String, usize)>,
}

/// The last value recorded for `key`, if any.
pub open spec fn spec_assoc_get(es: Seq<(String, usize)>, key: Seq<char>) -> Option<usize>
    decreases es.len(),
{
    if es.len() == 0 {
        None
    } else if es.last().0@ == key {
        Some(es.last().1)
    } else {
        spec_assoc_get(es.drop_last(), key)
    }
}

/// A recorded lookup result respects the range bound.
pub proof fn lemma_assoc_get_in_range(es: Seq<(String, usize)>, key: Seq<char>, n: int)
    requires
        forall|i: int| 0 <= i < es.len() ==> (#[trigger] es[i]).1 < n,
    ensures
        spec_assoc_get(es, key) matches Some(i) ==> i < n,
    decreases es.len(),
{
    if es.len() > 0 {
        assert(es.last() == es[es.len() - 1]);
        if es.last().0@ != key {
            assert(forall|i: int|
                0 <= i < es.drop_last().len() ==> (#[trigger] es.drop_last()[i]).1 < n);
            lemma_assoc_get_in_range(es.drop_last(), key, n);
        }
    }
}

impl NameIndex {
    pub open spec fn spec_get(&self, key: Seq<char>) -> Option<usize> {
        spec_assoc_get(self.entries@, key)
    }

    /// Every recorded position is below `n`.
    pub open spec fn in_range(&self, n: int) -> bool {
        forall|i: int| 0 <= i < self.entries@.len() ==> (#[trigger] self.entries@[i]).1 < n
    }

    pub fn new() -> (r: NameIndex)
        ensures
            r.entries@.len() == 0,
    {
        NameIndex { entries: Vec::new() }
    }

    /// Records `key -> idx`, shadowing any earlier entry for `key`.
    pub fn insert(&mut self, key: String, idx: usize)
        ensures
            final(self).entries@ == old(self).entries@.push((key, idx)),
    {
        self.entries.push((key, idx));
    }

    /// Looks `key` up.
    pub fn get(&self, key: &Vec<char>) -> (r: Option<usize>)
        ensures
            r == self.spec_get(key@),
    {
        let n = self.entries.len();
        let mut i: usize = n;
        proof {
            assert(self.entries@.take(n as int) =~= self.entries@);
        }
        while i > 0
            invariant
                i <= n,
                n == self.entries@.len(),
                spec_assoc_get(self.entries@, key@) == spec_assoc_get(
                    self.entries@.take(i as int),
                    key@,
                ),
        decreases i,
        {
            i = i - 1;
            proof {
                assert(self.entries@.take(i + 1).drop_last() =~= self.entries@.take(i as int));
                assert(self.entries@.take(i + 1).last() == self.entries@[i as int]);
            }
            if chars_eq_str(key, self.entries[i].0.as_str()) {
                return Some(self.entries[i].1);
            }
        }
        proof {
            assert(self.entries@.take(0) =~= Seq::<(String, usize)>::empty());
        }
        None
    }

    /// Whether `key` was recorded, for a key given as a string slice.
    pub fn contains_key(&self, key: &str) -> (r: bool)
        ensures
            r == (self.spec_get(key@) is Some),
    {
        let chars = crate::text::str_chars(key);
        match self.get(&chars) {
            Some(_) => true,
            None => false,
        }
    }
}

/// A map from command names to the positions of the flags they support.
#[derive(Debug)]
pub struct CommandMap {
    pub entries: Vec<(String, Vec<usize>)>,
}

/// The first value recorded for `key`, if any (keys are unique here).
pub open spec fn spec_cmap_get(es: Seq<(String, Vec<usize>)>, key: Seq<char>) -> Option<
    Seq<usize>,
>
    decreases es.len(),
{
    if es.len() == 0 {
        None
    } else if es[0].0@ == key {
        Some(es[0].1@)
    } else {
        spec_cmap_get(es.drop_first(), key)
    }
}

impl CommandMap {
    pub open spec fn spec_get(&self, key: Seq<char>) -> Option<Seq<usize>> {
        spec_cmap_get(self.entries@, key)
    }

    /// The keys, in entry order.
    pub open spec fn spec_keys(&self) -> Seq<Seq<char>> {
        self.entries@.map_values(|p: (String, Vec<usize>)| p.0@)
    }

    /// Every recorded position is below `n`.
    pub open spec fn in_range(&self, n: int) -> bool {
        forall|i: int, j: int|
            0 <= i < self.entries@.len() && 0 <= j < self.entries@[i].1@.len()
                ==> #[trigger] self.entries@[i].1@[j] < n
    }

    /// The flag positions supporting command `key`.
    pub fn get(&self, key: &str) -> (r: Option<&Vec<usize>>)
        ensures
            match r {
                Some(v) => self.spec_get(key@) == Some(v@),
                None => self.spec_get(key@) is None,
            },
    {
        let n = self.entries.len();
        let mut i: usize = 0;
        proof {
            assert(self.entries@.skip(0) =~= self.entries@);
        }
        while i < n
            invariant
                i <= n,
                n == self.entries@.len(),
                spec_cmap_get(self.entries@, key@) == spec_cmap_get(
                    self.entries@.skip(i as int),
                    key@,
                ),
            decreases n - i,
        {
            proof {
                assert(self.entries@.skip(i as int).drop_first() =~= self.entries@.skip(i + 1));
                assert(self.entries@.skip(i as int)[0] == self.entries@[i as int]);
            }
            if str_eq(self.entries[i].0.as_str(), key) {
                return Some(&self.entries[i].1);
            }
            i = i + 1;
        }
        proof {
            assert(self.entries@.skip(n as int) =~= Seq::<(String, Vec<usize>)>::empty());
        }
        None
    }

    /// Whether `key` is a recorded command.
    pub fn contains_key(&self, key: &str) -> (r: bool)
        ensures
            r == (self.spec_get(key@) is Some),
    {
        match self.get(key) {
            Some(_) => true,
            None => false,
        }
    }

    /// The keys, in entry order.
    pub fn keys(&self) -> (r: Vec<String>)
        ensures
            strs_view(&r) == self.spec_keys(),
    {
        let n = self.entries.len();
        let mut r: Vec<String> = Vec::new();
        let mut i: usize = 0;
        while i < n
            invariant
                i <= n,
                n == self.entries@.len(),
                r@.len() == i,
                forall|j: int| 0 <= j < i ==> (#[trigger] r@[j])@ == self.entries@[j].0@,
            decreases n - i,
        {
            r.push(self.entries[i].0.clone());
            i = i + 1;
        }
        proof {
            assert(strs_view(&r) =~= self.spec_keys());
        }
        r
    }
}

/// Whether the descriptor `f` applies to tool version `version`.
pub open spec fn version_included(f: FlagInfoV, version: Seq<char>) -> bool {
    seq_has(f.bazel_versions, version)
}

pub open spec fn flags_view(flags: Seq<FlagInfo>) -> Seq<FlagInfoV> {
    flags.map_values(|f: FlagInfo| f@)
}

/// The position of the last included descriptor before `upto` whose name is
/// `key` — "the current name index wins on collision".
pub open spec fn spec_name_lookup(
    fv: Seq<FlagInfoV>,
    version: Seq<char>,
    upto: int,
    key: Seq<char>,
) -> Option<usize>
    decreases upto,
{
    if upto <= 0 || upto > fv.len() {
        None
    } else if version_included(fv[upto - 1], version) && fv[upto - 1].name == key {
        Some((upto - 1) as usize)
    } else {
        spec_name_lookup(fv, version, upto - 1, key)
    }
}

/// Like [`spec_name_lookup`], for the abbreviation.
pub open spec fn spec_abbrev_lookup(
    fv: Seq<FlagInfoV>,
    version: Seq<char>,
    upto: int,
    key: Seq<char>,
) -> Option<usize>
    decreases upto,
{
    if upto <= 0 || upto > fv.len() {
        None
    } else if version_included(fv[upto - 1], version) && fv[upto - 1].abbreviation == Some(key) {
        Some((upto - 1) as usize)
    } else {
        spec_abbrev_lookup(fv, version, upto - 1, key)
    }
}

/// Like [`spec_name_lookup`], for the historical name.
pub open spec fn spec_old_name_lookup(
    fv: Seq<FlagInfoV>,
    version: Seq<char>,
    upto: int,
    key: Seq<char>,
) -> Option<usize>
    decreases upto,
{
    if upto <= 0 || upto > fv.len() {
        None
    } else if version_included(fv[upto - 1], version) && fv[upto - 1].old_name == Some(key) {
        Some((upto - 1) as usize)
    } else {
        spec_old_name_lookup(fv, version, upto - 1, key)
    }
}

/// The positions below `upto` of included descriptors that support command
/// `key`, in ascending order.
pub open spec fn spec_cmd_indices(
    fv: Seq<FlagInfoV>,
    version: Seq<char>,
    upto: int,
    key: Seq<char>,
) -> Seq<usize>
    decreases upto,
{
    if upto <= 0 || upto > fv.len() {
        Seq::empty()
    } else if version_included(fv[upto - 1], version) && seq_has(fv[upto - 1].commands, key) {
        spec_cmd_indices(fv, version, upto - 1, key).push((upto - 1) as usize)
    } else {
        spec_cmd_indices(fv, version, upto - 1, key)
    }
}

/// The positions below `upto` of included descriptors that support any
/// command at all: the union of all the per-command sets, in ascending order.
pub open spec fn spec_union_indices(fv: Seq<FlagInfoV>, version: Seq<char>, upto: int) -> Seq<
    usize,
>
    decreases upto,
{
    if upto <= 0 || upto > fv.len() {
        Seq::empty()
    } else if version_included(fv[upto - 1], version) && fv[upto - 1].commands.len() > 0 {
        spec_union_indices(fv, version, upto - 1).push((upto - 1) as usize)
    } else {
        spec_union_indices(fv, version, upto - 1)
    }
}

/// What the per-command map of the database holds for `key`: the union set
/// for the pseudo-commands `common` and `always` (a deliberate design choice
/// of the dataset: `always` is defined identically to `common`), else the
/// per-command set when it is non-empty.
pub open spec fn spec_cmd_map_get(fv: Seq<FlagInfoV>, version: Seq<char>, key: Seq<char>) -> Option<
    Seq<usize>,
> {
    if key == "common"@ || key == "always"@ {
        Some(spec_union_indices(fv, version, fv.len() as int))
    } else if spec_cmd_indices(fv, version, fv.len() as int, key).len() > 0 {
        Some(spec_cmd_indices(fv, version, fv.len() as int, key))
    } else {
        None
    }
}

/// Whether `key` is a recognized command of the database built from `fv`:
/// a command of some included descriptor, or a pseudo-command.
pub open spec fn spec_is_command_key(fv: Seq<FlagInfoV>, version: Seq<char>, key: Seq<char>) -> bool {
    key == "common"@ || key == "always"@ || exists|m: int|
        0 <= m < fv.len() && version_included(#[trigger] fv[m], version) && seq_has(
            fv[m].commands,
            key,
        )
}

pub open spec fn seq_no_dup(v: Seq<Seq<char>>) -> bool {
    forall|i: int, j: int| 0 <= i < j < v.len() ==> v[i] != v[j]
}

/// Adds each of `cmds[j..]` to `keys`, in order, skipping those present.
pub open spec fn spec_add_cmds(keys: Seq<Seq<char>>, cmds: Seq<Seq<char>>, j: int) -> Seq<
    Seq<char>,
>
    decreases cmds.len() - j,
{
    if j < 0 || j >= cmds.len() {
        keys
    } else if seq_has(keys, cmds[j]) {
        spec_add_cmds(keys, cmds, j + 1)
    } else {
        spec_add_cmds(keys.push(cmds[j]), cmds, j + 1)
    }
}

/// The command names of the included descriptors below `upto`, each once, in
/// order of first appearance.
pub open spec fn spec_collect_keys(fv: Seq<FlagInfoV>, version: Seq<char>, upto: int) -> Seq<
    Seq<char>,
>
    decreases upto,
{
    if upto <= 0 || upto > fv.len() {
        Seq::empty()
    } else if version_included(fv[upto - 1], version) {
        spec_add_cmds(spec_collect_keys(fv, version, upto - 1), fv[upto - 1].commands, 0)
    } else {
        spec_collect_keys(fv, version, upto - 1)
    }
}

/// The full key list of the per-command map: the collected command names,
/// with the pseudo-commands appended when not already present.
pub open spec fn spec_all_keys(fv: Seq<FlagInfoV>, version: Seq<char>) -> Seq<Seq<char>> {
    spec_add_cmds(
        spec_collect_keys(fv, version, fv.len() as int),
        seq!["common"@, "always"@],
        0,
    )
}

pub proof fn lemma_add_cmds_has(keys: Seq<Seq<char>>, cmds: Seq<Seq<char>>, j: int, q: Seq<char>)
    requires
        0 <= j <= cmds.len(),
    ensures
        seq_has(spec_add_cmds(keys, cmds, j), q) == (seq_has(keys, q) || exists|m: int|
            j <= m < cmds.len() && cmds[m] == q),
    decreases cmds.len() - j,
{
    if j < cmds.len() {
        if seq_has(keys, cmds[j]) {
            lemma_add_cmds_has(keys, cmds, j + 1, q);
            if seq_has(spec_add_cmds(keys, cmds, j), q) {
                if !seq_has(keys, q) {
                    let m = choose|m: int| j + 1 <= m < cmds.len() && cmds[m] == q;
                    assert(j <= m < cmds.len() && cmds[m] == q);
                }
            }
            if exists|m: int| j <= m < cmds.len() && cmds[m] == q {
                let m = choose|m: int| j <= m < cmds.len() && cmds[m] == q;
                if m == j {
                    assert(seq_has(keys, q));
                } else {
                    assert(j + 1 <= m < cmds.len() && cmds[m] == q);
                }
            }
        } else {
            let keys2 = keys.push(cmds[j]);
            lemma_add_cmds_has(keys2, cmds, j + 1, q);
            assert(seq_has(keys2, q) == (seq_has(keys, q) || cmds[j] == q)) by {
                if seq_has(keys2, q) {
                    let i = choose|i: int| 0 <= i < keys2.len() && keys2[i] == q;
                    if i < keys.len() {
                        assert(keys[i] == q);
                    }
                }
                if seq_has(keys, q) {
                    let i = choose|i: int| 0 <= i < keys.len() && keys[i] == q;
                    assert(keys2[i] == q);
                }
                if cmds[j] == q {
                    assert(keys2[keys.len() as int] == q);
                }
            }
            if seq_has(spec_add_cmds(keys, cmds, j), q) {
                if !seq_has(keys, q) {
                    if cmds[j] == q {
                        assert(j <= j < cmds.len() && cmds[j] == q);
                    } else {
                        let m = choose|m: int| j + 1 <= m < cmds.len() && cmds[m] == q;
                        assert(j <= m < cmds.len() && cmds[m] == q);
                    }
                }
            }
            if exists|m: int| j <= m < cmds.len() && cmds[m] == q {
                let m = choose|m: int| j <= m < cmds.len() && cmds[m] == q;
                if m == j {
                    assert(seq_has(keys2, q));
                } else {
                    assert(j + 1 <= m < cmds.len() && cmds[m] == q);
                }
            }
        }
    }
}

pub proof fn lemma_add_cmds_nodup(keys: Seq<Seq<char>>, cmds: Seq<Seq<char>>, j: int)
    requires
        0 <= j <= cmds.len(),
        seq_no_dup(keys),
    ensures
        seq_no_dup(spec_add_cmds(keys, cmds, j)),
    decreases cmds.len() - j,
{
    if j < cmds.len() {
        if seq_has(keys, cmds[j]) {
            lemma_add_cmds_nodup(keys, cmds, j + 1);
        } else {
            let keys2 = keys.push(cmds[j]);
            assert forall|a: int, b: int| 0 <= a < b < keys2.len() implies keys2[a] != keys2[b] by {
                if b == keys.len() {
                    assert(keys2[b] == cmds[j]);
                    assert(keys2[a] == keys[a]);
                    if keys[a] == cmds[j] {
                        assert(seq_has(keys, cmds[j]));
                    }
                }
            }
            lemma_add_cmds_nodup(keys2, cmds, j + 1);
        }
    }
}

/// Anything already in `keys` stays in the result.
pub proof fn lemma_collect_keys_has(fv: Seq<FlagInfoV>, version: Seq<char>, upto: int, q: Seq<char>)
    requires
        0 <= upto <= fv.len(),
    ensures
        seq_has(spec_collect_keys(fv, version, upto), q) == (exists|m: int|
            0 <= m < upto && version_included(#[trigger] fv[m], version) && seq_has(
                fv[m].commands,
                q,
            )),
    decreases upto,
{
    if upto > 0 {
        lemma_collect_keys_has(fv, version, upto - 1, q);
        if version_included(fv[upto - 1], version) {
            let prev = spec_collect_keys(fv, version, upto - 1);
            let cmds = fv[upto - 1].commands;
            lemma_add_cmds_has(prev, cmds, 0, q);
            if seq_has(spec_collect_keys(fv, version, upto), q) {
                if seq_has(prev, q) {
                    let m0 = choose|m: int|
                        0 <= m < upto - 1 && version_included(#[trigger] fv[m], version)
                            && seq_has(fv[m].commands, q);
                    assert(0 <= m0 < upto && version_included(fv[m0], version) && seq_has(
                        fv[m0].commands,
                        q,
                    ));
                } else {
                    assert(seq_has(fv[upto - 1].commands, q));
                    assert(0 <= upto - 1 < upto && version_included(fv[upto - 1], version)
                        && seq_has(fv[upto - 1].commands, q));
                }
            }
            if exists|m: int|
                0 <= m < upto && version_included(#[trigger] fv[m], version) && seq_has(
                    fv[m].commands,
                    q,
                ) {
                let m = choose|m: int|
                    0 <= m < upto && version_included(#[trigger] fv[m], version) && seq_has(
                        fv[m].commands,
                        q,
                    );
                if m < upto - 1 {
                    assert(seq_has(prev, q));
                    assert(seq_has(spec_add_cmds(prev, cmds, 0), q));
                } else {
                    assert(seq_has(cmds, q));
                    let i = choose|i: int| 0 <= i < cmds.len() && cmds[i] == q;
                    assert(0 <= i < cmds.len() && cmds[i] == q);
                    assert(seq_has(spec_add_cmds(prev, cmds, 0), q));
                }
                assert(seq_has(spec_collect_keys(fv, version, upto), q));
            }
        }
    }
}

pub proof fn lemma_collect_keys_nodup(fv: Seq<FlagInfoV>, version: Seq<char>, upto: int)
    requires
        0 <= upto <= fv.len(),
    ensures
        seq_no_dup(spec_collect_keys(fv, version, upto)),
    decreases upto,
{
    if upto > 0 {
        lemma_collect_keys_nodup(fv, version, upto - 1);
        if version_included(fv[upto - 1], version) {
            lemma_add_cmds_nodup(
                spec_collect_keys(fv, version, upto - 1),
                fv[upto - 1].commands,
                0,
            );
        }
    }
}

/// A supported command's index list is non-empty.
pub proof fn lemma_cmd_indices_nonempty(
    fv: Seq<FlagInfoV>,
    version: Seq<char>,
    upto: int,
    key: Seq<char>,
    m: int,
)
    requires
        0 <= m < upto <= fv.len(),
        version_included(fv[m], version),
        seq_has(fv[m].commands, key),
    ensures
        spec_cmd_indices(fv, version, upto, key).len() > 0,
    decreases upto,
{
    if m < upto - 1 {
        lemma_cmd_indices_nonempty(fv, version, upto - 1, key, m);
    }
}

/// The flag knowledge base for one tool version: the descriptor list and the
/// indices over it.
#[derive(Debug)]
pub struct BazelFlags {
    /// All recognized command names: every command supported by some flag,
    /// the pseudo-commands `common` and `always`, then `import` and
    /// `try-import`.
    pub commands: Vec<String>,
    /// The flag descriptors (all of them; the indices only point at the ones
    /// included in the target version).
    pub flags: Vec<FlagInfo>,
    /// Command name to the positions of the flags supporting it.
    pub flags_by_commands: CommandMap,
    /// Current flag name to position.
    pub flags_by_name: NameIndex,
    /// Abbreviation to position.
    pub flags_by_abbreviation: NameIndex,
    /// Historical flag name to position.
    pub flags_by_old_name: NameIndex,
}

impl BazelFlags {
    /// All recorded positions point into the flag list.
    pub open spec fn wf(&self) -> bool {
        &&& self.flags_by_name.in_range(self.flags@.len() as int)
        &&& self.flags_by_abbreviation.in_range(self.flags@.len() as int)
        &&& self.flags_by_old_name.in_range(self.flags@.len() as int)
        &&& self.flags_by_commands.in_range(self.flags@.len() as int)
    }

    /// The database's view: the descriptor views.
    pub open spec fn fv(&self) -> Seq<FlagInfoV> {
        flags_view(self.flags@)
    }
}

/// Whether descriptor `f` applies to `version`.
fn version_match(f: &FlagInfo, version: &str) -> (r: bool)
    ensures
        r == version_included(f@, version@),
{
    proof {
        lemma_strs_view_has(&f.bazel_versions, version@);
    }
    contains_str(&f.bazel_versions, version)
}

/// Builds the three name indices in one pass over the descriptors.
fn build_name_indexes(flags: &Vec<FlagInfo>, version: &str) -> (r: (
    NameIndex,
    NameIndex,
    NameIndex,
))
    ensures
        forall|q: Seq<char>|
            #[trigger] r.0.spec_get(q) == spec_name_lookup(
                flags_view(flags@),
                version@,
                flags@.len() as int,
                q,
            ),
        forall|q: Seq<char>|
            #[trigger] r.1.spec_get(q) == spec_abbrev_lookup(
                flags_view(flags@),
                version@,
                flags@.len() as int,
                q,
            ),
        forall|q: Seq<char>|
            #[trigger] r.2.spec_get(q) == spec_old_name_lookup(
                flags_view(flags@),
                version@,
                flags@.len() as int,
                q,
            ),
        r.0.in_range(flags@.len() as int),
        r.1.in_range(flags@.len() as int),
        r.2.in_range(flags@.len() as int),
{
    let ghost fv = flags_view(flags@);
    let n = flags.len();
    let mut by_name = NameIndex::new();
    let mut by_abbrev = NameIndex::new();
    let mut by_old = NameIndex::new();
    let mut k: usize = 0;
    while k < n
        invariant
            k <= n,
            n == flags@.len(),
            fv == flags_view(flags@),
            forall|q: Seq<char>|
                #[trigger] by_name.spec_get(q) == spec_name_lookup(fv, version@, k as int, q),
            forall|q: Seq<char>|
                #[trigger] by_abbrev.spec_get(q) == spec_abbrev_lookup(fv, version@, k as int, q),
            forall|q: Seq<char>|
                #[trigger] by_old.spec_get(q) == spec_old_name_lookup(fv, version@, k as int, q),
            by_name.in_range(n as int),
            by_abbrev.in_range(n as int),
            by_old.in_range(n as int),
        decreases n - k,
    {
        proof {
            assert(fv[k as int] == flags@[k as int]@);
        }
        let incl = version_match(&flags[k], version);
        if incl {
            let ghost bn0 = by_name;
            by_name.insert(flags[k].name.clone(), k);
            proof {
                assert(by_name.entries@.drop_last() =~= bn0.entries@);
                assert forall|q: Seq<char>| #[trigger] by_name.spec_get(q) == spec_name_lookup(
                    fv,
                    version@,
                    k as int + 1,
                    q,
                ) by {
                    assert(bn0.spec_get(q) == spec_name_lookup(fv, version@, k as int, q));
                }
            }
            match &flags[k].abbreviation {
                Some(a) => {
                    let ghost ba0 = by_abbrev;
                    let ac = a.clone();
                    by_abbrev.insert(ac, k);
                    proof {
                        assert(by_abbrev.entries@.drop_last() =~= ba0.entries@);
                        assert forall|q: Seq<char>| #[trigger] by_abbrev.spec_get(q)
                            == spec_abbrev_lookup(fv, version@, k as int + 1, q) by {
                            assert(ba0.spec_get(q) == spec_abbrev_lookup(
                                fv,
                                version@,
                                k as int,
                                q,
                            ));
                        }
                    }
                },
                None => {
                    proof {
                        assert(forall|q: Seq<char>|
                            spec_abbrev_lookup(fv, version@, k as int + 1, q)
                                == spec_abbrev_lookup(fv, version@, k as int, q));
                    }
                },
            }
            match &flags[k].old_name {
                Some(o) => {
                    let ghost bo0 = by_old;
                    let oc = o.clone();
                    by_old.insert(oc, k);
                    proof {
                        assert(by_old.entries@.drop_last() =~= bo0.entries@);
                        assert forall|q: Seq<char>| #[trigger] by_old.spec_get(q)
                            == spec_old_name_lookup(fv, version@, k as int + 1, q) by {
                            assert(bo0.spec_get(q) == spec_old_name_lookup(
                                fv,
                                version@,
                                k as int,
                                q,
                            ));
                        }
                    }
                },
                None => {
                    proof {
                        assert(forall|q: Seq<char>|
                            spec_old_name_lookup(fv, version@, k as int + 1, q)
                                == spec_old_name_lookup(fv, version@, k as int, q));
                    }
                },
            }
        } else {
            proof {
                assert(forall|q: Seq<char>|
                    spec_name_lookup(fv, version@, k as int + 1, q) == spec_name_lookup(
                        fv,
                        version@,
                        k as int,
                        q,
                    ));
                assert(forall|q: Seq<char>|
                    spec_abbrev_lookup(fv, version@, k as int + 1, q) == spec_abbrev_lookup(
                        fv,
                        version@,
                        k as int,
                        q,
                    ));
                assert(forall|q: Seq<char>|
                    spec_old_name_lookup(fv, version@, k as int + 1, q) == spec_old_name_lookup(
                        fv,
                        version@,
                        k as int,
                        q,
                    ));
            }
        }
        k = k + 1;
    }
    (by_name, by_abbrev, by_old)
}

/// Collects the recognized command names, each once, in order of first
/// appearance, followed by the pseudo-commands when not already present.
fn collect_command_keys(flags: &Vec<FlagInfo>, version: &str) -> (keys: Vec<String>)
    ensures
        strs_view(&keys) == spec_all_keys(flags_view(flags@), version@),
{
    let ghost fv = flags_view(flags@);
    let n = flags.len();
    let mut keys: Vec<String> = Vec::new();
    let mut k: usize = 0;
    proof {
        assert(strs_view(&keys) =~= Seq::<Seq<char>>::empty());
    }
    while k < n
        invariant
            k <= n,
            n == flags@.len(),
            fv == flags_view(flags@),
            strs_view(&keys) == spec_collect_keys(fv, version@, k as int),
        decreases n - k,
    {
        proof {
            assert(fv[k as int] == flags@[k as int]@);
        }
        let incl = version_match(&flags[k], version);
        if incl {
            let ghost ck = spec_collect_keys(fv, version@, k as int);
            let ghost cmdsv = fv[k as int].commands;
            let m = flags[k].commands.len();
            let mut j: usize = 0;
            while j < m
                invariant
                    j <= m,
                    k < n,
                    n == flags@.len(),
                    fv == flags_view(flags@),
                    fv[k as int] == flags@[k as int]@,
                    cmdsv == fv[k as int].commands,
                    m == cmdsv.len(),
                    spec_add_cmds(strs_view(&keys), cmdsv, j as int) == spec_add_cmds(
                        ck,
                        cmdsv,
                        0,
                    ),
                decreases m - j,
            {
                proof {
                    assert(cmdsv[j as int] == flags@[k as int].commands@[j as int]@);
                    lemma_strs_view_has(&keys, cmdsv[j as int]);
                }
                let cmd = &flags[k].commands[j];
                if !contains_str(&keys, cmd.as_str()) {
                    let ghost kv0 = strs_view(&keys);
                    keys.push(cmd.clone());
                    proof {
                        assert(strs_view(&keys) =~= kv0.push(cmdsv[j as int]));
                    }
                }
                j = j + 1;
            }
            proof {
                assert(spec_add_cmds(strs_view(&keys), cmdsv, m as int) == strs_view(&keys));
                assert(spec_collect_keys(fv, version@, k as int + 1) == spec_add_cmds(
                    ck,
                    cmdsv,
                    0,
                ));
            }
        }
        k = k + 1;
    }
    // Append the pseudo-commands, unless some flag names them literally.
    let ghost ck_full = strs_view(&keys);
    let ghost cas = seq!["common"@, "always"@];
    proof {
        lemma_strs_view_has(&keys, "common"@);
        assert(cas[0] == "common"@);
        assert(cas[1] == "always"@);
    }
    if !contains_str(&keys, "common") {
        let ghost kv0 = strs_view(&keys);
        keys.push(String::from_str("common"));
        proof {
            assert(strs_view(&keys) =~= kv0.push("common"@));
            assert(spec_add_cmds(ck_full, cas, 0) == spec_add_cmds(strs_view(&keys), cas, 1));
        }
    } else {
        proof {
            assert(seq_has(ck_full, cas[0]));
            assert(spec_add_cmds(ck_full, cas, 0) == spec_add_cmds(strs_view(&keys), cas, 1));
        }
    }
    let ghost kv_mid = strs_view(&keys);
    proof {
        lemma_strs_view_has(&keys, "always"@);
    }
    if !contains_str(&keys, "always") {
        keys.push(String::from_str("always"));
        proof {
            assert(strs_view(&keys) =~= kv_mid.push("always"@));
            assert(spec_add_cmds(kv_mid, cas, 1) == spec_add_cmds(strs_view(&keys), cas, 2));
        }
    } else {
        proof {
            assert(seq_has(kv_mid, cas[1]));
            assert(spec_add_cmds(kv_mid, cas, 1) == spec_add_cmds(strs_view(&keys), cas, 2));
        }
    }
    proof {
        assert(spec_add_cmds(strs_view(&keys), cas, 2) == strs_view(&keys));
        assert(spec_all_keys(fv, version@) == spec_add_cmds(ck_full, cas, 0));
    }
    keys
}

/// What the per-command map stores for key `q`.
pub open spec fn spec_cmd_value(fv: Seq<FlagInfoV>, version: Seq<char>, q: Seq<char>) -> Seq<
    usize,
> {
    if q == "common"@ || q == "always"@ {
        spec_union_indices(fv, version, fv.len() as int)
    } else {
        spec_cmd_indices(fv, version, fv.len() as int, q)
    }
}

/// A non-empty per-command set comes from some included descriptor.
proof fn lemma_cmd_indices_source(fv: Seq<FlagInfoV>, version: Seq<char>, upto: int, q: Seq<char>)
    requires
        0 <= upto <= fv.len(),
        spec_cmd_indices(fv, version, upto, q).len() > 0,
    ensures
        exists|m: int|
            0 <= m < upto && version_included(#[trigger] fv[m], version) && seq_has(
                fv[m].commands,
                q,
            ),
    decreases upto,
{
    if upto > 0 {
        if version_included(fv[upto - 1], version) && seq_has(fv[upto - 1].commands, q) {
            assert(0 <= upto - 1 < upto && version_included(fv[upto - 1], version) && seq_has(
                fv[upto - 1].commands,
                q,
            ));
        } else {
            lemma_cmd_indices_source(fv, version, upto - 1, q);
            let m = choose|m: int|
                0 <= m < upto - 1 && version_included(#[trigger] fv[m], version) && seq_has(
                    fv[m].commands,
                    q,
                );
            assert(0 <= m < upto && version_included(fv[m], version) && seq_has(fv[m].commands, q));
        }
    }
}

/// Looking a key up in entries that each hold their key's value.
proof fn lemma_cmap_entries_get(
    es: Seq<(String, Vec<usize>)>,
    fv: Seq<FlagInfoV>,
    version: Seq<char>,
    q: Seq<char>,
)
    requires
        forall|m: int|
            0 <= m < es.len() ==> (#[trigger] es[m]).1@ == spec_cmd_value(fv, version, es[m].0@),
    ensures
        spec_cmap_get(es, q) == if exists|m: int| 0 <= m < es.len() && (#[trigger] es[m]).0@ == q {
            Some(spec_cmd_value(fv, version, q))
        } else {
            None
        },
    decreases es.len(),
{
    if es.len() > 0 {
        if es[0].0@ == q {
            assert(0 <= 0 < es.len() && es[0].0@ == q);
        } else {
            let tail = es.drop_first();
            assert(forall|m: int| 0 <= m < tail.len() ==> #[trigger] tail[m] == es[m + 1]);
            lemma_cmap_entries_get(tail, fv, version, q);
            if exists|m: int| 0 <= m < es.len() && (#[trigger] es[m]).0@ == q {
                let m = choose|m: int| 0 <= m < es.len() && (#[trigger] es[m]).0@ == q;
                assert(m > 0);
                assert(tail[m - 1].0@ == q);
            }
            if exists|m: int| 0 <= m < tail.len() && (#[trigger] tail[m]).0@ == q {
                let m = choose|m: int| 0 <= m < tail.len() && (#[trigger] tail[m]).0@ == q;
                assert(es[m + 1].0@ == q);
            }
        }
    }
}

/// The positions of the flags that the map stores for `key`.
fn collect_indices_for_key(flags: &Vec<FlagInfo>, version: &str, key: &str, is_ca: bool) -> (r:
    Vec<usize>)
    requires
        is_ca == (key@ == "common"@ || key@ == "always"@),
    ensures
        r@ == spec_cmd_value(flags_view(flags@), version@, key@),
        forall|j: int| 0 <= j < r@.len() ==> (#[trigger] r@[j]) < flags@.len(),
{
    let ghost fv = flags_view(flags@);
    let n = flags.len();
    let mut r: Vec<usize> = Vec::new();
    let mut k: usize = 0;
    proof {
        assert(r@ =~= Seq::<usize>::empty());
    }
    while k < n
        invariant
            k <= n,
            n == flags@.len(),
            fv == flags_view(flags@),
            is_ca == (key@ == "common"@ || key@ == "always"@),
            r@ == (if is_ca {
                spec_union_indices(fv, version@, k as int)
            } else {
                spec_cmd_indices(fv, version@, k as int, key@)
            }),
            forall|j: int| 0 <= j < r@.len() ==> (#[trigger] r@[j]) < k,
        decreases n - k,
    {
        proof {
            assert(fv[k as int] == flags@[k as int]@);
            lemma_strs_view_has(&flags@[k as int].commands, key@);
        }
        let incl = version_match(&flags[k], version);
        let use_it = incl && (if is_ca {
            flags[k].commands.len() > 0
        } else {
            contains_str(&flags[k].commands, key)
        });
        if use_it {
            r.push(k);
        }
        k = k + 1;
    }
    r
}

/// Builds the per-command map: one entry per recognized command, holding the
/// positions of the flags that support it.
fn build_command_map(flags: &Vec<FlagInfo>, version: &str, keys: &Vec<String>) -> (r: CommandMap)
    requires
        strs_view(keys) == spec_all_keys(flags_view(flags@), version@),
    ensures
        r.spec_keys() == strs_view(keys),
        forall|q: Seq<char>|
            #[trigger] r.spec_get(q) == spec_cmd_map_get(flags_view(flags@), version@, q),
        r.in_range(flags@.len() as int),
{
    let ghost fv = flags_view(flags@);
    let nk = keys.len();
    let mut entries: Vec<(String, Vec<usize>)> = Vec::new();
    let mut i: usize = 0;
    while i < nk
        invariant
            i <= nk,
            nk == keys@.len(),
            fv == flags_view(flags@),
            entries@.len() == i,
            forall|m: int|
                0 <= m < i ==> (#[trigger] entries@[m]).0@ == keys@[m]@ && entries@[m].1@
                    == spec_cmd_value(fv, version@, keys@[m]@),
            forall|m: int, j: int|
                0 <= m < entries@.len() && 0 <= j < entries@[m].1@.len()
                    ==> #[trigger] entries@[m].1@[j] < flags@.len(),
        decreases nk - i,
    {
        let key = &keys[i];
        let is_ca = str_eq(key.as_str(), "common") || str_eq(key.as_str(), "always");
        let idxs = collect_indices_for_key(flags, version, key.as_str(), is_ca);
        entries.push((key.clone(), idxs));
        i = i + 1;
    }
    let cm = CommandMap { entries };
    proof {
        assert(cm.spec_keys() =~= strs_view(keys));
        let cas = seq!["common"@, "always"@];
        assert(cas[0] == "common"@);
        assert(cas[1] == "always"@);
        let ck = spec_collect_keys(fv, version@, fv.len() as int);
        assert forall|q: Seq<char>| #[trigger] cm.spec_get(q) == spec_cmd_map_get(
            fv,
            version@,
            q,
        ) by {
            lemma_cmap_entries_get(cm.entries@, fv, version@, q);
            lemma_collect_keys_has(fv, version@, fv.len() as int, q);
            lemma_add_cmds_has(ck, cas, 0, q);
            assert(strs_view(keys) == spec_add_cmds(ck, cas, 0));
            if exists|m: int| 0 <= m < cm.entries@.len() && (#[trigger] cm.entries@[m]).0@ == q {
                // The key is recognized: the map holds its value.
                if q == "common"@ || q == "always"@ {
                } else {
                    let m = choose|m: int|
                        0 <= m < cm.entries@.len() && (#[trigger] cm.entries@[m]).0@ == q;
                    assert(keys@[m]@ == q);
                    assert(seq_has(strs_view(keys), q)) by {
                        assert(strs_view(keys)[m] == q);
                    }
                    assert(seq_has(ck, q));
                    let w = choose|w: int|
                        0 <= w < fv.len() && version_included(#[trigger] fv[w], version@)
                            && seq_has(fv[w].commands, q);
                    lemma_cmd_indices_nonempty(fv, version@, fv.len() as int, q, w);
                }
            } else {
                // Not recognized: the pseudo-commands are always recognized,
                // and no included flag supports `q`.
                assert(!seq_has(strs_view(keys), q)) by {
                    if seq_has(strs_view(keys), q) {
                        let m = choose|m: int|
                            0 <= m < strs_view(keys).len() && strs_view(keys)[m] == q;
                        assert(cm.entries@[m].0@ == q);
                    }
                }
                assert(q != "common"@ && q != "always"@) by {
                    lemma_add_cmds_has(ck, cas, 0, "common"@);
                    lemma_add_cmds_has(ck, cas, 0, "always"@);
                    assert(seq_has(spec_add_cmds(ck, cas, 0), "common"@)) by {
                        assert(0 <= 0 < cas.len() && cas[0] == "common"@);
                    }
                    assert(seq_has(spec_add_cmds(ck, cas, 0), "always"@)) by {
                        assert(0 <= 1 < cas.len() && cas[1] == "always"@);
                    }
                }
                assert(spec_cmd_indices(fv, version@, fv.len() as int, q).len() == 0) by {
                    if spec_cmd_indices(fv, version@, fv.len() as int, q).len() > 0 {
                        lemma_cmd_indices_source(fv, version@, fv.len() as int, q);
                        assert(seq_has(ck, q));
                        assert(seq_has(spec_add_cmds(ck, cas, 0), q));
                    }
                }
            }
        }
    }
    cm
}

/// Builds the flag knowledge base for one tool version: keeps only the
/// descriptors whose version list holds `bazel_version` in the indices, maps
/// each flag name, abbreviation and historical name to its descriptor (the
/// current name wins on collision), records for each command the flags that
/// support it, synthesizes the `common` and `always` pseudo-command entries
/// as the union of all the per-command sets, and closes the recognized
/// command list with `import` and `try-import`.
impl BazelFlags {
    pub fn from_flags(flags: Vec<FlagInfo>, bazel_version: &str) -> (r: BazelFlags)
        ensures
            r.wf(),
            r.flags == flags,
            forall|q: Seq<char>|
                #[trigger] r.flags_by_name.spec_get(q) == spec_name_lookup(
                    flags_view(flags@),
                    bazel_version@,
                    flags@.len() as int,
                    q,
                ),
            forall|q: Seq<char>|
                #[trigger] r.flags_by_abbreviation.spec_get(q) == spec_abbrev_lookup(
                    flags_view(flags@),
                    bazel_version@,
                    flags@.len() as int,
                    q,
                ),
            forall|q: Seq<char>|
                #[trigger] r.flags_by_old_name.spec_get(q) == spec_old_name_lookup(
                    flags_view(flags@),
                    bazel_version@,
                    flags@.len() as int,
                    q,
                ),
            forall|q: Seq<char>|
                #[trigger] r.flags_by_commands.spec_get(q) == spec_cmd_map_get(
                    flags_view(flags@),
                    bazel_version@,
                    q,
                ),
            r.flags_by_commands.spec_keys() == spec_all_keys(flags_view(flags@), bazel_version@),
            seq_no_dup(r.flags_by_commands.spec_keys()),
            strs_view(&r.commands) == spec_all_keys(flags_view(flags@), bazel_version@) + seq![
                "import"@,
                "try-import"@,
            ],
    {
        let ghost fv = flags_view(flags@);
        let (by_name, by_abbrev, by_old) = build_name_indexes(&flags, bazel_version);
        let keys = collect_command_keys(&flags, bazel_version);
        let cmap = build_command_map(&flags, bazel_version, &keys);
        let nk = keys.len();
        let mut commands: Vec<String> = Vec::new();
        let mut i: usize = 0;
        while i < nk
            invariant
                i <= nk,
                nk == keys@.len(),
                commands@.len() == i,
                forall|j: int| 0 <= j < i ==> (#[trigger] commands@[j])@ == keys@[j]@,
            decreases nk - i,
        {
            commands.push(keys[i].clone());
            i = i + 1;
        }
        commands.push(String::from_str("import"));
        commands.push(String::from_str("try-import"));
        proof {
            assert(strs_view(&commands) =~= strs_view(&keys) + seq!["import"@, "try-import"@]);
            lemma_collect_keys_nodup(fv, bazel_version@, fv.len() as int);
            lemma_add_cmds_nodup(
                spec_collect_keys(fv, bazel_version@, fv.len() as int),
                seq!["common"@, "always"@],
                0,
            );
        }
        BazelFlags {
            commands,
            flags,
            flags_by_commands: cmap,
            flags_by_name: by_name,
            flags_by_abbreviation: by_abbrev,
            flags_by_old_name: by_old,
        }
    }
}

/// How a raw flag token resolved: by its current name, by a historical
/// name, or by its abbreviation.
#[derive(Debug, Clone, Copy, PartialEq, Eq, Structural)]
pub enum FlagLookupType {
    CurrentName,
    OldName,
    Abbreviation,
}

/// How a raw `--flag` / `-f` token resolves: strip one trailing `=`; a token
/// starting with `--` (but not `---`) is looked up by current name after
/// stripping an optional leading `no`, falling back to the historical name;
/// a token starting with a single `-` is looked up by abbreviation.
pub open spec fn spec_get_by_invocation(db: &BazelFlags, s: Seq<char>) -> Option<
    (FlagLookupType, usize),
> {
    let stripped = if s.len() > 0 && s.last() == '=' {
        s.drop_last()
    } else {
        s
    };
    if stripped.len() >= 2 && stripped[0] == '-' && stripped[1] == '-' {
        let long = stripped.skip(2);
        if long.len() > 0 && long[0] == '-' {
            None
        } else {
            let key = if long.len() >= 2 && long[0] == 'n' && long[1] == 'o' {
                long.skip(2)
            } else {
                long
            };
            match db.flags_by_name.spec_get(key) {
                Some(i) => Some((FlagLookupType::CurrentName, i)),
                None => match db.flags_by_old_name.spec_get(key) {
                    Some(i) => Some((FlagLookupType::OldName, i)),
                    None => None,
                },
            }
        }
    } else if stripped.len() >= 1 && stripped[0] == '-' {
        let ab = stripped.skip(1);
        match db.flags_by_abbreviation.spec_get(ab) {
            Some(i) => Some((FlagLookupType::Abbreviation, i)),
            None => None,
        }
    } else {
        None
    }
}

impl BazelFlags {
    /// Resolves a raw flag token such as `--keep_going`, `--nokeep_going`,
    /// `--jobs=` or `-k` to its descriptor, reporting how it resolved.
    pub fn get_by_invocation(&self, s: &str) -> (r: Option<(FlagLookupType, &FlagInfo)>)
        requires
            self.wf(),
        ensures
            match r {
                Some((t, fi)) => {
                    &&& spec_get_by_invocation(self, s@) matches Some((t2, i))
                    &&& t == spec_get_by_invocation(self, s@)->Some_0.0
                    &&& *fi == self.flags@[spec_get_by_invocation(self, s@)->Some_0.1 as int]
                },
                None => spec_get_by_invocation(self, s@) is None,
            },
    {
        let chars = crate::text::str_chars(s);
        let n = chars.len();
        // Strip one trailing `=`.
        let end: usize = if n > 0 && chars[n - 1] == '=' {
            n - 1
        } else {
            n
        };
        proof {
            if n > 0 && chars@[n - 1] == '=' {
                assert(chars@.take(end as int) =~= chars@.drop_last());
            } else {
                assert(chars@.take(end as int) =~= chars@);
            }
        }
        let ghost stripped = chars@.take(end as int);
        if end >= 2 && chars[0] == '-' && chars[1] == '-' {
            proof {
                assert(stripped[0] == chars@[0]);
                assert(stripped[1] == chars@[1]);
            }
            if end >= 3 && chars[2] == '-' {
                proof {
                    assert(stripped.skip(2)[0] == chars@[2]);
                }
                return None;
            }
            let start: usize = if end >= 4 && chars[2] == 'n' && chars[3] == 'o' {
                4
            } else {
                2
            };
            let key = crate::text::subvec(&chars, start, end);
            proof {
                let long = stripped.skip(2);
                assert(long =~= chars@.subrange(2, end as int));
                if end >= 4 && chars@[2] == 'n' && chars@[3] == 'o' {
                    assert(long[0] == chars@[2] && long[1] == chars@[3]);
                    assert(key@ =~= long.skip(2));
                } else {
                    if long.len() >= 2 {
                        assert(long[0] == chars@[2] && long[1] == chars@[3]);
                    } else if long.len() >= 1 {
                        assert(long[0] == chars@[2]);
                    }
                    assert(key@ =~= long);
                }
            }
            proof {
                lemma_assoc_get_in_range(self.flags_by_name.entries@, key@, self.flags@.len() as int);
                lemma_assoc_get_in_range(
                    self.flags_by_old_name.entries@,
                    key@,
                    self.flags@.len() as int,
                );
            }
            match self.flags_by_name.get(&key) {
                Some(i) => Some((FlagLookupType::CurrentName, &self.flags[i])),
                None => match self.flags_by_old_name.get(&key) {
                    Some(i) => Some((FlagLookupType::OldName, &self.flags[i])),
                    None => None,
                },
            }
        } else if end >= 1 && chars[0] == '-' {
            proof {
                assert(stripped[0] == chars@[0]);
                if end >= 2 {
                    assert(stripped[1] == chars@[1]);
                }
            }
            let ab = crate::text::subvec(&chars, 1, end);
            proof {
                assert(ab@ =~= stripped.skip(1));
            }
            proof {
                lemma_assoc_get_in_range(
                    self.flags_by_abbreviation.entries@,
                    ab@,
                    self.flags@.len() as int,
                );
            }
            match self.flags_by_abbreviation.get(&ab) {
                Some(i) => Some((FlagLookupType::Abbreviation, &self.flags[i])),
                None => None,
            }
        } else {
            proof {
                if stripped.len() >= 1 {
                    assert(stripped[0] == chars@[0]);
                }
            }
            None
        }
    }
}

/// A resolved invocation points into the flag list.
pub proof fn lemma_invocation_in_range(db: &BazelFlags, s: Seq<char>)
    requires
        db.wf(),
    ensures
        spec_get_by_invocation(db, s) matches Some((t, i)) ==> i < db.flags@.len(),
{
    let stripped = if s.len() > 0 && s.last() == '=' {
        s.drop_last()
    } else {
        s
    };
    if stripped.len() >= 2 && stripped[0] == '-' && stripped[1] == '-' {
        let long = stripped.skip(2);
        let key = if long.len() >= 2 && long[0] == 'n' && long[1] == 'o' {
            long.skip(2)
        } else {
            long
        };
        lemma_assoc_get_in_range(db.flags_by_name.entries@, key, db.flags@.len() as int);
        lemma_assoc_get_in_range(db.flags_by_old_name.entries@, key, db.flags@.len() as int);
    } else if stripped.len() >= 1 && stripped[0] == '-' {
        lemma_assoc_get_in_range(
            db.flags_by_abbreviation.entries@,
            stripped.skip(1),
            db.flags@.len() as int,
        );
    }
}

/// Whether flag `f` would absorb the following token of its line: its name
/// resolves to a descriptor that always consumes a value, and the flag does
/// not carry a value yet (a flag that already has its value is complete and
/// takes nothing further — this is what makes combining idempotent).
pub open spec fn spec_absorbs(db: &BazelFlags, f: crate::parser::FlagV) -> bool {
    match f.name {
        Some((n, sp)) => f.value is None && match spec_get_by_invocation(db, n) {
            Some((t, i)) => i < db.flags@.len() && db.flags@[i as int].requires_value == Some(
                true,
            ),
            None => false,
        },
        None => false,
    }
}

/// The flag once `next` is absorbed as its value: the value text is
/// `name=value` when `next` has both, else whichever `next` has, with a span
/// covering the absorbed range. A `next` with neither part is just dropped.
pub open spec fn spec_combined(f: crate::parser::FlagV, next: crate::parser::FlagV) -> crate::parser::FlagV {
    match (next.name, next.value) {
        (Some((nn, nsp)), Some((nv, vsp))) => crate::parser::FlagV {
            name: f.name,
            value: Some(
                (nn + seq!['='] + nv, crate::tokenizer::Span { start: nsp.start, end: vsp.end }),
            ),
        },
        (Some((nn, nsp)), None) => crate::parser::FlagV { name: f.name, value: Some((nn, nsp)) },
        (None, Some((nv, vsp))) => crate::parser::FlagV { name: f.name, value: Some((nv, vsp)) },
        (None, None) => f,
    }
}

/// One combining pass over a line's flags: each flag without a value whose
/// name resolves to a value-consuming descriptor absorbs the next flag.
pub open spec fn spec_combine_flags(db: &BazelFlags, flags: Seq<crate::parser::FlagV>) -> Seq<
    crate::parser::FlagV,
>
    decreases flags.len(),
{
    if flags.len() == 0 {
        Seq::empty()
    } else if spec_absorbs(db, flags[0]) && flags.len() >= 2 {
        seq![spec_combined(flags[0], flags[1])] + spec_combine_flags(db, flags.skip(2))
    } else {
        seq![flags[0]] + spec_combine_flags(db, flags.skip(1))
    }
}

/// One combining pass over a line.
pub open spec fn spec_combine_line(db: &BazelFlags, l: crate::parser::LineV) -> crate::parser::LineV {
    crate::parser::LineV {
        command: l.command,
        config: l.config,
        flags: spec_combine_flags(db, l.flags),
        comment: l.comment,
        span: l.span,
    }
}

/// One combining pass over all lines.
pub open spec fn spec_combine_lines(db: &BazelFlags, ls: Seq<crate::parser::LineV>) -> Seq<
    crate::parser::LineV,
> {
    ls.map_values(|l: crate::parser::LineV| spec_combine_line(db, l))
}

/// Copies an optional spanned string.
fn clone_spanned(o: &Option<(String, crate::tokenizer::Span)>) -> (r: Option<
    (String, crate::tokenizer::Span),
>)
    ensures
        crate::parser::spanned_view(&r) == crate::parser::spanned_view(o),
{
    match o {
        Some((s, sp)) => Some((s.clone(), *sp)),
        None => None,
    }
}

/// One combining pass over one line's flag vector.
fn combine_flags_vec(db: &BazelFlags, flags: &Vec<crate::parser::Flag>) -> (r: Vec<
    crate::parser::Flag,
>)
    requires
        db.wf(),
    ensures
        r@.map_values(|f: crate::parser::Flag| f@) == spec_combine_flags(
            db,
            flags@.map_values(|f: crate::parser::Flag| f@),
        ),
{
    let ghost fvv = flags@.map_values(|f: crate::parser::Flag| f@);
    let n = flags.len();
    let mut out: Vec<crate::parser::Flag> = Vec::new();
    let mut i: usize = 0;
    proof {
        assert(fvv.skip(0) =~= fvv);
    }
    while i < n
        invariant
            i <= n,
            n == flags@.len(),
            db.wf(),
            fvv == flags@.map_values(|f: crate::parser::Flag| f@),
            out@.map_values(|f: crate::parser::Flag| f@) + spec_combine_flags(
                db,
                fvv.skip(i as int),
            ) == spec_combine_flags(db, fvv),
        decreases n - i,
    {
        proof {
            assert(fvv[i as int] == flags@[i as int]@);
            assert(fvv.skip(i as int)[0] == fvv[i as int]);
        }
        let f = &flags[i];
        let absorbs: bool = match &f.name {
            Some((nm, nsp)) => f.value.is_none() && match db.get_by_invocation(nm.as_str()) {
                Some((t, info)) => info.get_requires_value(),
                None => false,
            },
            None => false,
        };
        proof {
            match &f.name {
                Some((nm, nsp)) => {
                    lemma_invocation_in_range(db, nm@);
                },
                None => {},
            }
            assert(absorbs == spec_absorbs(db, fvv[i as int]));
        }
        let ghost out0 = out@.map_values(|f: crate::parser::Flag| f@);
        if absorbs && i + 1 < n {
            proof {
                assert(fvv.skip(i as int)[1] == fvv[i as int + 1]);
                assert(fvv[i as int + 1] == flags@[i as int + 1]@);
            }
            let next = &flags[i + 1];
            let newf: crate::parser::Flag = match (&next.name, &next.value) {
                (Some((nn, nsp)), Some((nv, vsp))) => {
                    let mut txt = nn.clone();
                    txt.append("=");
                    txt.append(nv.as_str());
                    proof {
                        reveal_strlit("=");
                        assert("="@ =~= seq!['=']);
                    }
                    crate::parser::Flag {
                        name: clone_spanned(&f.name),
                        value: Some(
                            (
                                txt,
                                crate::tokenizer::Span { start: nsp.start, end: vsp.end },
                            ),
                        ),
                    }
                },
                (Some(p), None) => crate::parser::Flag {
                    name: clone_spanned(&f.name),
                    value: Some((p.0.clone(), p.1)),
                },
                (None, Some(p)) => crate::parser::Flag {
                    name: clone_spanned(&f.name),
                    value: Some((p.0.clone(), p.1)),
                },
                (None, None) => crate::parser::Flag {
                    name: clone_spanned(&f.name),
                    value: clone_spanned(&f.value),
                },
            };
            proof {
                assert(newf@ =~~= spec_combined(fvv[i as int], fvv[i as int + 1]));
            }
            out.push(newf);
            proof {
                assert(fvv.skip(i as int).skip(2) =~= fvv.skip(i as int + 2));
                assert(spec_combine_flags(db, fvv.skip(i as int)) == seq![
                    spec_combined(fvv[i as int], fvv[i as int + 1]),
                ] + spec_combine_flags(db, fvv.skip(i as int + 2)));
                assert(out@.map_values(|f: crate::parser::Flag| f@) =~= out0.push(newf@));
                assert(out0.push(newf@) + spec_combine_flags(db, fvv.skip(i as int + 2)) =~= out0
                    + (seq![newf@] + spec_combine_flags(db, fvv.skip(i as int + 2))));
            }
            i = i + 2;
        } else {
            let newf = crate::parser::Flag {
                name: clone_spanned(&f.name),
                value: clone_spanned(&f.value),
            };
            proof {
                assert(newf@ =~~= fvv[i as int]);
            }
            out.push(newf);
            proof {
                assert(fvv.skip(i as int).skip(1) =~= fvv.skip(i as int + 1));
                assert(spec_combine_flags(db, fvv.skip(i as int)) == seq![fvv[i as int]]
                    + spec_combine_flags(db, fvv.skip(i as int + 1)));
                assert(out@.map_values(|f: crate::parser::Flag| f@) =~= out0.push(newf@));
                assert(out0.push(newf@) + spec_combine_flags(db, fvv.skip(i as int + 1)) =~= out0
                    + (seq![newf@] + spec_combine_flags(db, fvv.skip(i as int + 1))));
            }
            i = i + 1;
        }
    }
    proof {
        assert(fvv.skip(n as int) =~= Seq::<crate::parser::FlagV>::empty());
        assert(spec_combine_flags(db, fvv.skip(n as int)) =~= Seq::<
            crate::parser::FlagV,
        >::empty());
        assert(out@.map_values(|f: crate::parser::Flag| f@) + Seq::<
            crate::parser::FlagV,
        >::empty() =~= out@.map_values(|f: crate::parser::Flag| f@));
    }
    out
}

/// Combines flag names with the values they consume, line by line and in
/// place: a flag without a value whose name resolves to a descriptor with
/// `requires_value` absorbs the next flag of its line into its value. The
/// pass is idempotent. It must run before the position index and the
/// diagnostics, since it changes flag counts and spans.
pub fn combine_key_value_flags(lines: &mut Vec<crate::parser::Line>, bazel_flags: &BazelFlags)
    requires
        bazel_flags.wf(),
    ensures
        final(lines)@.map_values(|l: crate::parser::Line| l@) == spec_combine_lines(
            bazel_flags,
            old(lines)@.map_values(|l: crate::parser::Line| l@),
        ),
{
    let ghost lv0 = lines@.map_values(|l: crate::parser::Line| l@);
    let n = lines.len();
    let mut out: Vec<crate::parser::Line> = Vec::new();
    let mut i: usize = 0;
    while i < n
        invariant
            i <= n,
            n == lines@.len(),
            bazel_flags.wf(),
            lines@ == old(lines)@,
            lv0 == lines@.map_values(|l: crate::parser::Line| l@),
            out@.len() == i,
            forall|j: int|
                0 <= j < i ==> (#[trigger] out@[j])@ == spec_combine_line(bazel_flags, lv0[j]),
        decreases n - i,
    {
        proof {
            assert(lv0[i as int] == lines@[i as int]@);
        }
        let l = &lines[i];
        let newflags = combine_flags_vec(bazel_flags, &l.flags);
        let newline = crate::parser::Line {
            command: clone_spanned(&l.command),
            config: clone_spanned(&l.config),
            flags: newflags,
            comment: clone_spanned(&l.comment),
            span: l.span,
        };
        proof {
            assert(newline@ =~~= spec_combine_line(bazel_flags, lv0[i as int]));
        }
        out.push(newline);
        i = i + 1;
    }
    *lines = out;
    proof {
        assert(lines@.map_values(|l: crate::parser::Line| l@) =~= spec_combine_lines(
            bazel_flags,
            lv0,
        ));
    }
}

/// No flag of `flags`, but possibly the last, would absorb a following one.
/// Combining leaves such a flag list unchanged.
pub open spec fn spec_combine_stable(db: &BazelFlags, flags: Seq<crate::parser::FlagV>) -> bool {
    forall|i: int| 0 <= i < flags.len() - 1 ==> !spec_absorbs(db, #[trigger] flags[i])
}

/// A stable flag list is a fixpoint of the combiner.
pub proof fn lemma_combine_stable_fixpoint(db: &BazelFlags, flags: Seq<crate::parser::FlagV>)
    requires
        spec_combine_stable(db, flags),
    ensures
        spec_combine_flags(db, flags) == flags,
    decreases flags.len(),
{
    if flags.len() > 0 {
        assert(!(spec_absorbs(db, flags[0]) && flags.len() >= 2));
        assert(forall|i: int|
            0 <= i < flags.skip(1).len() - 1 ==> #[trigger] flags.skip(1)[i] == flags[i + 1]);
        lemma_combine_stable_fixpoint(db, flags.skip(1));
        assert(seq![flags[0]] + flags.skip(1) =~= flags);
    }
}

/// Idempotence of the flag/value combiner: when one pass leaves every
/// value-consuming flag last in its line, a second pass changes nothing.
/// (A line where a combined flag is still followed by further tokens — say
/// `--copt` followed by two bare values — is combined further by another
/// pass and is left out here.)
pub proof fn lemma_combine_idempotent(db: &BazelFlags, flags: Seq<crate::parser::FlagV>)
    requires
        spec_combine_stable(db, spec_combine_flags(db, flags)),
    ensures
        spec_combine_flags(db, spec_combine_flags(db, flags)) == spec_combine_flags(db, flags),
{
    lemma_combine_stable_fixpoint(db, spec_combine_flags(db, flags));
}

/// Invocation lookup: a flag's abbreviation and its full name resolve to
/// the same descriptor. When `-a` carries the registered abbreviation of the
/// flag at position `i` and `--n` its current name (not starting with a
/// further `-` or with `no`, and without a trailing `=`), both invocations
/// resolve to position `i`.
pub proof fn lemma_abbreviation_matches_full_name(
    db: &BazelFlags,
    short: Seq<char>,
    long: Seq<char>,
    i: usize,
)
    requires
        short.len() >= 2,
        short[0] == '-',
        short[1] != '-',
        short.last() != '=',
        db.flags_by_abbreviation.spec_get(short.skip(1)) == Some(i),
        long.len() >= 3,
        long[0] == '-',
        long[1] == '-',
        long[2] != '-',
        long.last() != '=',
        !(long.len() >= 4 && long[2] == 'n' && long[3] == 'o'),
        db.flags_by_name.spec_get(long.skip(2)) == Some(i),
    ensures
        spec_get_by_invocation(db, short) == Some((FlagLookupType::Abbreviation, i)),
        spec_get_by_invocation(db, long) == Some((FlagLookupType::CurrentName, i)),
{
    assert(short.skip(1)[0] == short[1]);
    let l2 = long.skip(2);
    assert(l2[0] == long[2]);
    if l2.len() >= 2 {
        assert(l2[1] == long[3]);
    }
}

/// One combining pass keeps the flags' spans inside `[lo, hi]` and keeps
/// them ordered and disjoint: an absorbed value's span covers exactly the
/// absorbed range.
proof fn lemma_combine_flags_spans(
    db: &BazelFlags,
    flags: Seq<crate::parser::FlagV>,
    lo: int,
    hi: int,
)
    requires
        lo <= hi,
        crate::parser::flags_fields_in(flags, lo, hi),
    ensures
        crate::parser::flags_fields_in(spec_combine_flags(db, flags), lo, hi),
    decreases flags.len(),
{
    if flags.len() == 0 {
    } else if spec_absorbs(db, flags[0]) && flags.len() >= 2 {
        let c = spec_combined(flags[0], flags[1]);
        let lo2 = crate::parser::flag_hi(flags[1]);
        assert(crate::parser::flags_fields_in(flags.skip(2), lo2, hi)) by {
            assert(forall|i: int|
                0 <= i < flags.skip(2).len() ==> #[trigger] flags.skip(2)[i] == flags[i + 2]);
        }
        lemma_combine_flags_spans(db, flags.skip(2), lo2, hi);
        let rest = spec_combine_flags(db, flags.skip(2));
        let whole = spec_combine_flags(db, flags);
        assert(whole =~= seq![c] + rest);
        assert(crate::parser::flag_present(c) && crate::parser::flag_ordered(c) && lo
            <= crate::parser::flag_lo(c) && crate::parser::flag_hi(c) <= hi
            && crate::parser::flag_hi(c) <= lo2);
        assert forall|i: int| 0 <= i < whole.len() implies crate::parser::flag_present(
            #[trigger] whole[i],
        ) && crate::parser::flag_ordered(whole[i]) && lo <= crate::parser::flag_lo(whole[i])
            && crate::parser::flag_hi(whole[i]) <= hi by {
            if i > 0 {
                assert(whole[i] == rest[i - 1]);
            }
        }
        assert forall|i: int, j: int| 0 <= i < j < whole.len() implies crate::parser::flag_hi(
            #[trigger] whole[i],
        ) <= crate::parser::flag_lo(#[trigger] whole[j]) by {
            if i > 0 {
                assert(whole[i] == rest[i - 1]);
                assert(whole[j] == rest[j - 1]);
            } else {
                assert(whole[j] == rest[j - 1]);
                assert(lo2 <= crate::parser::flag_lo(rest[j - 1]));
            }
        }
    } else {
        let lo2 = crate::parser::flag_hi(flags[0]);
        assert(crate::parser::flags_fields_in(flags.skip(1), lo2, hi)) by {
            assert(forall|i: int|
                0 <= i < flags.skip(1).len() ==> #[trigger] flags.skip(1)[i] == flags[i + 1]);
        }
        lemma_combine_flags_spans(db, flags.skip(1), lo2, hi);
        let rest = spec_combine_flags(db, flags.skip(1));
        let whole = spec_combine_flags(db, flags);
        assert(whole =~= seq![flags[0]] + rest);
        assert forall|i: int| 0 <= i < whole.len() implies crate::parser::flag_present(
            #[trigger] whole[i],
        ) && crate::parser::flag_ordered(whole[i]) && lo <= crate::parser::flag_lo(whole[i])
            && crate::parser::flag_hi(whole[i]) <= hi by {
            if i > 0 {
                assert(whole[i] == rest[i - 1]);
            }
        }
        assert forall|i: int, j: int| 0 <= i < j < whole.len() implies crate::parser::flag_hi(
            #[trigger] whole[i],
        ) <= crate::parser::flag_lo(#[trigger] whole[j]) by {
            if i > 0 {
                assert(whole[i] == rest[i - 1]);
                assert(whole[j] == rest[j - 1]);
            } else {
                assert(whole[j] == rest[j - 1]);
                assert(lo2 <= crate::parser::flag_lo(rest[j - 1]));
            }
        }
    }
}

/// Span coverage survives the combiner: a combined line's command,
/// configuration and flag spans still lie within the line's own span, and
/// sibling flags still never overlap.
pub proof fn lemma_combine_preserves_span_coverage(db: &BazelFlags, l: crate::parser::LineV)
    requires
        crate::parser::line_spans_wf(l),
    ensures
        crate::parser::line_spans_wf(spec_combine_line(db, l)),
{
    let lo = crate::parser::head_end(l, l.span.start as int);
    if lo <= l.span.end as int {
        lemma_combine_flags_spans(db, l.flags, lo, l.span.end as int);
        assert(crate::parser::head_end(spec_combine_line(db, l), l.span.start as int) == lo);
    } else {
        // The head spans reach past a backwards span: no flag fits either,
        // so there is nothing to absorb.
        assert(l.flags.len() == 0) by {
            if l.flags.len() > 0 {
                assert(crate::parser::flag_present(l.flags[0]) && lo <= crate::parser::flag_lo(
                    l.flags[0],
                ) && crate::parser::flag_hi(l.flags[0]) <= l.span.end
                    && crate::parser::flag_ordered(l.flags[0]));
            }
        }
        assert(spec_combine_flags(db, l.flags) =~= l.flags);
    }
}

/// Idempotence of the combiner over whole documents.
pub proof fn lemma_combine_lines_idempotent(db: &BazelFlags, ls: Seq<crate::parser::LineV>)
    requires
        forall|i: int|
            0 <= i < ls.len() ==> spec_combine_stable(
                db,
                spec_combine_flags(db, (#[trigger] ls[i]).flags),
            ),
    ensures
        spec_combine_lines(db, spec_combine_lines(db, ls)) == spec_combine_lines(db, ls),
{
    assert forall|i: int| 0 <= i < ls.len() implies #[trigger] spec_combine_lines(
        db,
        spec_combine_lines(db, ls),
    )[i] == spec_combine_lines(db, ls)[i] by {
        lemma_combine_idempotent(db, ls[i].flags);
    }
    assert(spec_combine_lines(db, spec_combine_lines(db, ls)) =~= spec_combine_lines(db, ls));
}

} // verus!
