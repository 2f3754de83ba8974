//! Material libraries: the part of the MTL grammar that names texture files.
//!
//! A library is read line by line. A line is cut into words at white space.
//! Lines without a word and lines whose first word begins with `#` say
//! nothing. `newmtl NAME` opens a material; `map_Kd`, `map_bump` (or `bump`)
//! and `map_d` set the colour, normal and opacity texture of the material
//! that is open. Every other line is passed over.

use vstd::prelude::*;
use vstd::string::StrSliceExecFns;
use crate::my_image::{first_loadable, ImageFile, ImageView};
use crate::texture::{map_view, MappedTexture};

verus! {

/// The texture files that one material names.
pub struct MtlInfo {
    pub name: String,
    /// The colour texture.
    pub map_kd: Option<String>,
    /// The normal map.
    pub map_bump: Option<String>,
    /// The opacity texture.
    pub map_d: Option<String>,
}

/// A material as a value: its name and file names as sequences of characters.
pub struct MtlInfoView {
    pub name: Seq<char>,
    pub map_kd: Option<Seq<char>>,
    pub map_bump: Option<Seq<char>>,
    pub map_d: Option<Seq<char>>,
}

/// What one line of a material library says.
pub enum Directive {
    /// Nothing: a blank line, a comment, or a statement that is not read.
    Skip,
    /// `newmtl` with the material's name.
    NewMaterial(String),
    /// `newmtl` without a name.
    MissingName,
    /// `map_Kd` with its file, if one is given.
    Diffuse(Option<String>),
    /// `map_bump` or `bump` with its file, if one is given.
    Bump(Option<String>),
    /// `map_d` with its file, if one is given.
    Alpha(Option<String>),
}

/// A line's statement as a value.
pub enum DirectiveView {
    Skip,
    NewMaterial(Seq<char>),
    MissingName,
    Diffuse(Option<Seq<char>>),
    Bump(Option<Seq<char>>),
    Alpha(Option<Seq<char>>),
}

/// The characters of an optional string.
pub open spec fn opt_view(s: Option<String>) -> Option<Seq<char>> {
    match s {
        Some(s) => Some(s@),
        None => None,
    }
}

impl View for MtlInfo {
    type V = MtlInfoView;

    open spec fn view(&self) -> MtlInfoView {
        MtlInfoView {
            name: self.name@,
            map_kd: opt_view(self.map_kd),
            map_bump: opt_view(self.map_bump),
            map_d: opt_view(self.map_d),
        }
    }
}

impl View for Directive {
    type V = DirectiveView;

    open spec fn view(&self) -> DirectiveView {
        match *self {
            Directive::Skip => DirectiveView::Skip,
            Directive::NewMaterial(n) => DirectiveView::NewMaterial(n@),
            Directive::MissingName => DirectiveView::MissingName,
            Directive::Diffuse(f) => DirectiveView::Diffuse(opt_view(f)),
            Directive::Bump(f) => DirectiveView::Bump(opt_view(f)),
            Directive::Alpha(f) => DirectiveView::Alpha(opt_view(f)),
        }
    }
}

/// The materials of a list as values.
pub open spec fn views(ms: Seq<MtlInfo>) -> Seq<MtlInfoView> {
    ms.map_values(|m: MtlInfo| m@)
}

/// White space: the characters with the Unicode property `White_Space`.
pub open spec fn is_space(c: char) -> bool {
    let n = c as u32;
    ||| 0x09 <= n <= 0x0D
    ||| n == 0x20
    ||| n == 0x85
    ||| n == 0xA0
    ||| n == 0x1680
    ||| 0x2000 <= n <= 0x200A
    ||| n == 0x2028
    ||| n == 0x2029
    ||| n == 0x202F
    ||| n == 0x205F
    ||| n == 0x3000
}

/// The first place at or after `i` that holds no white space, or the end
/// of `s`.
pub open spec fn skip_spaces(s: Seq<char>, i: int) -> int
    decreases s.len() - i,
{
    if 0 <= i < s.len() && is_space(s[i]) {
        skip_spaces(s, i + 1)
    } else {
        i
    }
}

/// The first place at or after `i` that holds white space, or the end of
/// `s`.
pub open spec fn skip_word(s: Seq<char>, i: int) -> int
    decreases s.len() - i,
{
    if 0 <= i < s.len() && !is_space(s[i]) {
        skip_word(s, i + 1)
    } else {
        i
    }
}

/// The next word of `s` at or after `from` and the place just behind it, or
/// `None` where only white space is left.
pub open spec fn word(s: Seq<char>, from: int) -> Option<(Seq<char>, int)> {
    let a = skip_spaces(s, from);
    if a >= s.len() {
        None
    } else {
        Some((s.subrange(a, skip_word(s, a)), skip_word(s, a)))
    }
}

pub open spec fn kw_newmtl() -> Seq<char> {
    seq!['n', 'e', 'w', 'm', 't', 'l']
}

pub open spec fn kw_map_kd() -> Seq<char> {
    seq!['m', 'a', 'p', '_', 'K', 'd']
}

pub open spec fn kw_map_bump() -> Seq<char> {
    seq!['m', 'a', 'p', '_', 'b', 'u', 'm', 'p']
}

pub open spec fn kw_bump() -> Seq<char> {
    seq!['b', 'u', 'm', 'p']
}

pub open spec fn kw_map_d() -> Seq<char> {
    seq!['m', 'a', 'p', '_', 'd']
}

/// What the line `s` says: its first word decides, its second word is the
/// argument, and further words are not read.
pub open spec fn directive_of(s: Seq<char>) -> DirectiveView {
    match word(s, 0) {
        None => DirectiveView::Skip,
        Some((first, end)) => {
            let arg = match word(s, end) {
                Some((second, _)) => Some(second),
                None => None,
            };
            if first[0] == '#' {
                DirectiveView::Skip
            } else if first == kw_newmtl() {
                match arg {
                    Some(name) => DirectiveView::NewMaterial(name),
                    None => DirectiveView::MissingName,
                }
            } else if first == kw_map_kd() {
                DirectiveView::Diffuse(arg)
            } else if first == kw_map_bump() || first == kw_bump() {
                DirectiveView::Bump(arg)
            } else if first == kw_map_d() {
                DirectiveView::Alpha(arg)
            } else {
                DirectiveView::Skip
            }
        },
    }
}

/// A material that names no file yet.
pub open spec fn fresh(name: Seq<char>) -> MtlInfoView {
    MtlInfoView { name, map_kd: None, map_bump: None, map_d: None }
}

/// The place of the first material at or after `from` with the given name,
/// or the length of `ms` where there is none.
pub open spec fn find(ms: Seq<MtlInfoView>, name: Seq<char>, from: int) -> int
    decreases ms.len() - from,
{
    if from < 0 || from >= ms.len() {
        ms.len() as int
    } else if ms[from].name == name {
        from
    } else {
        find(ms, name, from + 1)
    }
}

/// `ms` with the material `m` put on record: a material without a name is
/// dropped, one whose name is on record takes the place of the earlier one,
/// and any other goes to the end.
pub open spec fn record(ms: Seq<MtlInfoView>, m: MtlInfoView) -> Seq<MtlInfoView> {
    if m.name.len() == 0 {
        ms
    } else if find(ms, m.name, 0) < ms.len() {
        ms.update(find(ms, m.name, 0), m)
    } else {
        ms.push(m)
    }
}

/// How far a library has been read: the materials on record and the one
/// that is open.
pub struct Reading {
    pub done: Seq<MtlInfoView>,
    pub current: MtlInfoView,
}

/// Before the first line: nothing on record, and an open material without a
/// name.
pub open spec fn start() -> Reading {
    Reading { done: Seq::empty(), current: fresh(Seq::empty()) }
}

/// The reading after one more line.
pub open spec fn step(r: Reading, d: DirectiveView) -> Reading {
    match d {
        DirectiveView::Skip => r,
        DirectiveView::MissingName => r,
        DirectiveView::NewMaterial(name) => Reading {
            done: record(r.done, r.current),
            current: fresh(name),
        },
        DirectiveView::Diffuse(f) => Reading {
            done: r.done,
            current: MtlInfoView { map_kd: f, ..r.current },
        },
        DirectiveView::Bump(f) => Reading {
            done: r.done,
            current: MtlInfoView { map_bump: f, ..r.current },
        },
        DirectiveView::Alpha(f) => Reading {
            done: r.done,
            current: MtlInfoView { map_d: f, ..r.current },
        },
    }
}

/// The reading after the first `n` lines.
pub open spec fn read(lines: Seq<String>, n: int) -> Reading
    decreases n,
{
    if n <= 0 {
        start()
    } else {
        step(read(lines, n - 1), directive_of(lines[n - 1]@))
    }
}

/// The materials of a library: what is on record after the last line, the
/// material that was open then included.
pub open spec fn materials_of(lines: Seq<String>) -> Seq<MtlInfoView> {
    record(read(lines, lines.len() as int).done, read(lines, lines.len() as int).current)
}

/// Whether line `k` is a `newmtl` without a name.
pub open spec fn nameless(lines: Seq<String>, k: int) -> bool {
    directive_of(lines[k]@) is MissingName
}

/// No two materials have the same name, and none has the empty name.
pub open spec fn distinct_names(ms: Seq<MtlInfoView>) -> bool {
    &&& forall|i: int| 0 <= i < ms.len() ==> (#[trigger] ms[i]).name.len() > 0
    &&& forall|i: int, j: int|
        0 <= i < j < ms.len() ==> (#[trigger] ms[i]).name != (#[trigger] ms[j]).name
}

/// `find` answers a place from `from` on, the first one where the name
/// stands.
pub proof fn lemma_find(ms: Seq<MtlInfoView>, name: Seq<char>, from: int)
    requires
        0 <= from <= ms.len(),
    ensures
        from <= find(ms, name, from) <= ms.len(),
        find(ms, name, from) < ms.len() ==> ms[find(ms, name, from)].name == name,
        forall|k: int| from <= k < find(ms, name, from) ==> (#[trigger] ms[k]).name != name,
    decreases ms.len() - from,
{
    if from < ms.len() && ms[from].name != name {
        lemma_find(ms, name, from + 1);
    }
}

/// Putting a material on record keeps the names distinct.
pub proof fn lemma_record_distinct(ms: Seq<MtlInfoView>, m: MtlInfoView)
    requires
        distinct_names(ms),
    ensures
        distinct_names(record(ms, m)),
{
    lemma_find(ms, m.name, 0);
}

/// However far a library is read, the materials on record have distinct
/// names.
pub proof fn lemma_read_distinct(lines: Seq<String>, n: int)
    ensures
        distinct_names(read(lines, n).done),
    decreases n,
{
    if n > 0 {
        lemma_read_distinct(lines, n - 1);
        lemma_record_distinct(read(lines, n - 1).done, read(lines, n - 1).current);
    }
}

/// In the materials of a library no name occurs twice.
pub proof fn lemma_materials_distinct(lines: Seq<String>)
    ensures
        distinct_names(materials_of(lines)),
{
    let r = read(lines, lines.len() as int);
    lemma_read_distinct(lines, lines.len() as int);
    lemma_record_distinct(r.done, r.current);
}

/// `skip_spaces` stops within the line, behind white space only, and not
/// before white space.
pub proof fn lemma_skip_spaces(s: Seq<char>, i: int)
    requires
        0 <= i <= s.len(),
    ensures
        i <= skip_spaces(s, i) <= s.len(),
        skip_spaces(s, i) < s.len() ==> !is_space(s[skip_spaces(s, i)]),
        forall|k: int| i <= k < skip_spaces(s, i) ==> is_space(#[trigger] s[k]),
    decreases s.len() - i,
{
    if i < s.len() && is_space(s[i]) {
        lemma_skip_spaces(s, i + 1);
    }
}

/// `skip_word` stops within the line, behind no white space, and not before
/// a character of a word.
pub proof fn lemma_skip_word(s: Seq<char>, i: int)
    requires
        0 <= i <= s.len(),
    ensures
        i <= skip_word(s, i) <= s.len(),
        skip_word(s, i) < s.len() ==> is_space(s[skip_word(s, i)]),
        forall|k: int| i <= k < skip_word(s, i) ==> !is_space(#[trigger] s[k]),
        i < s.len() && !is_space(s[i]) ==> i < skip_word(s, i),
    decreases s.len() - i,
{
    if i < s.len() && !is_space(s[i]) {
        lemma_skip_word(s, i + 1);
    }
}

/// Whether `c` is white space.
pub fn is_whitespace(c: char) -> (r: bool)
    ensures
        r == is_space(c),
{
    let n: u32 = c as u32;
    (0x09 <= n && n <= 0x0D) || n == 0x20 || n == 0x85 || n == 0xA0 || n == 0x1680 || (0x2000 <= n
        && n <= 0x200A) || n == 0x2028 || n == 0x2029 || n == 0x202F || n == 0x205F || n == 0x3000
}

/// The characters of `s`, one by one.
pub fn chars_of(s: &str) -> (v: Vec<char>)
    ensures
        v@ == s@,
{
    let mut v: Vec<char> = Vec::new();
    for c in it: s.chars()
        invariant
            it.seq() == s@,
            v@ == it.seq().take(it.index() as int),
    {
        v.push(c);
        assert(it.seq().take(it.index() + 1) =~= it.seq().take(it.index() as int).push(c));
    }
    assert(v@ =~= s@);
    v
}

fn skip_spaces_in(s: &Vec<char>, from: usize) -> (r: usize)
    requires
        from <= s.len(),
    ensures
        r == skip_spaces(s@, from as int),
        from <= r <= s.len(),
{
    let mut i = from;
    while i < s.len() && is_whitespace(s[i])
        invariant
            from <= i <= s.len(),
            skip_spaces(s@, from as int) == skip_spaces(s@, i as int),
        decreases s.len() - i,
    {
        i += 1;
    }
    i
}

fn skip_word_in(s: &Vec<char>, from: usize) -> (r: usize)
    requires
        from <= s.len(),
    ensures
        r == skip_word(s@, from as int),
        from <= r <= s.len(),
{
    let mut i = from;
    while i < s.len() && !is_whitespace(s[i])
        invariant
            from <= i <= s.len(),
            skip_word(s@, from as int) == skip_word(s@, i as int),
        decreases s.len() - i,
    {
        i += 1;
    }
    i
}

fn word_is(s: &Vec<char>, from: usize, to: usize, keyword: &Vec<char>) -> (r: bool)
    requires
        from <= to <= s.len(),
    ensures
        r == (s@.subrange(from as int, to as int) == keyword@),
{
    if to - from != keyword.len() {
        return false;
    }
    let mut i: usize = 0;
    while i < keyword.len()
        invariant
            from <= to <= s.len(),
            to - from == keyword.len(),
            i <= keyword.len(),
            forall|k: int| 0 <= k < i ==> s@[from + k] == keyword@[k],
        decreases keyword.len() - i,
    {
        if s[from + i] != keyword[i] {
            assert(s@.subrange(from as int, to as int)[i as int] != keyword@[i as int]);
            return false;
        }
        i += 1;
    }
    assert(s@.subrange(from as int, to as int) =~= keyword@);
    true
}

/// Reads one line.
pub fn parse_line(line: &str) -> (d: Directive)
    ensures
        d@ == directive_of(line@),
{
    let s = chars_of(line);
    let a0 = skip_spaces_in(&s, 0);
    if a0 >= s.len() {
        return Directive::Skip;
    }
    let b0 = skip_word_in(&s, a0);
    proof {
        lemma_skip_spaces(s@, 0);
        lemma_skip_word(s@, a0 as int);
    }
    if s[a0] == '#' {
        return Directive::Skip;
    }
    let a1 = skip_spaces_in(&s, b0);
    let arg: Option<String> = if a1 >= s.len() {
        None
    } else {
        let b1 = skip_word_in(&s, a1);
        Some(line.substring_char(a1, b1).to_owned())
    };
    if word_is(&s, a0, b0, &vec!['n', 'e', 'w', 'm', 't', 'l']) {
        match arg {
            Some(name) => Directive::NewMaterial(name),
            None => Directive::MissingName,
        }
    } else if word_is(&s, a0, b0, &vec!['m', 'a', 'p', '_', 'K', 'd']) {
        Directive::Diffuse(arg)
    } else if word_is(&s, a0, b0, &vec!['m', 'a', 'p', '_', 'b', 'u', 'm', 'p']) || word_is(
        &s,
        a0,
        b0,
        &vec!['b', 'u', 'm', 'p'],
    ) {
        Directive::Bump(arg)
    } else if word_is(&s, a0, b0, &vec!['m', 'a', 'p', '_', 'd']) {
        Directive::Alpha(arg)
    } else {
        Directive::Skip
    }
}

fn fresh_material(name: String) -> (m: MtlInfo)
    ensures
        m@ == fresh(name@),
{
    MtlInfo { name, map_kd: None, map_bump: None, map_d: None }
}

/// The place of the first material named `name`, if there is one.
pub fn find_material(materials: &Vec<MtlInfo>, name: &String) -> (r: Option<usize>)
    ensures
        match r {
            Some(i) => i == find(views(materials@), name@, 0) && i < materials.len(),
            None => find(views(materials@), name@, 0) == materials.len(),
        },
{
    let mut i: usize = 0;
    while i < materials.len()
        invariant
            i <= materials.len(),
            find(views(materials@), name@, 0) == find(views(materials@), name@, i as int),
        decreases materials.len() - i,
    {
        assert(views(materials@)[i as int].name == materials@[i as int].name@);
        if materials[i].name == *name {
            return Some(i);
        }
        i += 1;
    }
    None
}

fn put_on_record(done: &mut Vec<MtlInfo>, m: MtlInfo)
    ensures
        views(final(done)@) == record(views(old(done)@), m@),
{
    if m.name.as_str().is_empty() {
        return ;
    }
    match find_material(done, &m.name) {
        Some(i) => {
            done[i] = m;
            assert(views(done@) =~= views(old(done)@).update(i as int, m@));
        },
        None => {
            done.push(m);
            assert(views(done@) =~= views(old(done)@).push(m@));
        },
    }
}

/// Reads a material library from its lines.
///
/// The answer is `Err(k)` where line `k` is the first `newmtl` without a
/// name. Otherwise it is the library's materials, each name once: a
/// material that is defined again takes the place of the earlier
/// definition.
pub fn parse_mtl(lines: &Vec<String>) -> (r: Result<Vec<MtlInfo>, usize>)
    ensures
        match r {
            Ok(ms) => {
                &&& forall|k: int| 0 <= k < lines.len() ==> !nameless(lines@, k)
                &&& views(ms@) == materials_of(lines@)
            },
            Err(k) => {
                &&& k < lines.len()
                &&& nameless(lines@, k as int)
                &&& forall|j: int| 0 <= j < k ==> !nameless(lines@, j)
            },
        },
{
    let mut done: Vec<MtlInfo> = Vec::new();
    let mut current = fresh_material(String::new());
    let mut i: usize = 0;
    assert(views(done@) =~= start().done);
    while i < lines.len()
        invariant
            i <= lines.len(),
            forall|k: int| 0 <= k < i ==> !nameless(lines@, k),
            views(done@) == read(lines@, i as int).done,
            current@ == read(lines@, i as int).current,
        decreases lines.len() - i,
    {
        match parse_line(lines[i].as_str()) {
            Directive::Skip => {},
            Directive::MissingName => {
                return Err(i);
            },
            Directive::NewMaterial(name) => {
                put_on_record(&mut done, current);
                current = fresh_material(name);
            },
            Directive::Diffuse(f) => {
                current.map_kd = f;
            },
            Directive::Bump(f) => {
                current.map_bump = f;
            },
            Directive::Alpha(f) => {
                current.map_d = f;
            },
        }
        i += 1;
    }
    put_on_record(&mut done, current);
    Ok(done)
}

/// The image that goes with an optional file name: the first image among
/// `files` where a name is given.
pub open spec fn named_image(name: Option<String>, files: Seq<ImageFile>) -> Option<ImageView> {
    match name {
        Some(_) => Some(first_loadable(files, 0)),
        None => None,
    }
}

impl MtlInfo {
    /// The file of the material's colour texture as a value:
    /// `default_diffuse.png` where the material names none.
    pub open spec fn spec_color_file(self) -> Seq<char> {
        match self.map_kd {
            Some(f) => f@,
            None => "default_diffuse.png"@,
        }
    }

    /// The file of the material's colour texture: `default_diffuse.png`
    /// where the material names none.
    pub fn color_file(&self) -> (name: String)
        ensures
            name@ == self.spec_color_file(),
    {
        match &self.map_kd {
            Some(f) => f.clone(),
            None => "default_diffuse.png".to_owned(),
        }
    }
}

/// The texture of a material, from the candidate files of its colour
/// texture, its normal map and its opacity map. The files of a map that the
/// material does not name are not read, and the texture is without that
/// map.
pub fn make_mapped_texture_from_mtl(
    material: &MtlInfo,
    color_files: &Vec<ImageFile>,
    normal_files: &Vec<ImageFile>,
    alpha_files: &Vec<ImageFile>,
) -> (t: MappedTexture)
    ensures
        t.color_map@ == first_loadable(color_files@, 0),
        map_view(t.normal_map) == named_image(material.map_bump, normal_files@),
        map_view(t.alpha_map) == named_image(material.map_d, alpha_files@),
{
    MappedTexture::new(
        color_files,
        if material.map_bump.is_some() {
            Some(normal_files)
        } else {
            None
        },
        if material.map_d.is_some() {
            Some(alpha_files)
        } else {
            None
        },
    )
}

} // verus!
