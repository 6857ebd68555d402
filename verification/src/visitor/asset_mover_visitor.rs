//! A pass that relocates referenced assets: a reference attribute whose
//! value resolves to a known on-disk path is rewritten to point into a
//! central assets directory, under a sanitized, collision-resistant name.
//! Each distinct resolved source path is planned for copying at most once;
//! a second reference reuses the name already chosen.  The filesystem is
//! never touched here: the caller supplies the set of paths that exist and
//! carries out the recorded copy plan.

use vstd::prelude::*;

use crate::dom::{
    attrs_of, set_attr_m, set_attrs_m, valid_id, Attr, AttrView, DataView, Dom, DomView, Handle,
    NodeData,
};
use crate::idgen::{fresh_uuid_string, ident_shaped};
use crate::text::{str_eq, str_to_chars, chars_to_string, push_str_chars};
use crate::visitor::NodeVisitor;

verus! {

/// Relies on `path_clean::clean`: a lexical path normalisation (collapsed
/// slashes, `.` and `..` elements resolved) that depends on its argument
/// alone and touches no filesystem.
pub uninterp spec fn cleaned_path_of(s: Seq<char>) -> Seq<char>;

#[verifier::external_body]
fn clean_path(s: &str) -> (r: String)
    ensures
        r@ == cleaned_path_of(s@),
{
    path_clean::clean(s).to_string_lossy().into_owned()
}

/// Relies on `sanitize_filename::sanitize`: a filename with reserved and
/// special characters removed, depending on its argument alone.
pub uninterp spec fn sanitized_name_of(s: Seq<char>) -> Seq<char>;

#[verifier::external_body]
fn sanitize_name(s: &str) -> (r: String)
    ensures
        r@ == sanitized_name_of(s@),
{
    sanitize_filename::sanitize(s)
}

/// Relies on `str::to_lowercase`: the Unicode lowercase form, a function of
/// the characters alone.
pub uninterp spec fn lower_of(s: Seq<char>) -> Seq<char>;

#[verifier::external_body]
fn to_lower(s: &str) -> (r: String)
    ensures
        r@ == lower_of(s@),
{
    s.to_lowercase()
}

/// Does the sequence start with this prefix?
pub open spec fn has_prefix(s: Seq<char>, p: Seq<char>) -> bool {
    s.len() >= p.len() && s.subrange(0, p.len() as int) == p
}

/// The position after the last `/`, or zero.
pub open spec fn after_last_slash(s: Seq<char>) -> int
    decreases s.len(),
{
    if s.len() == 0 {
        0
    } else if s.last() == '/' {
        s.len() as int
    } else {
        after_last_slash(s.drop_last())
    }
}

/// The file name part of a path: everything after the last `/`.
pub open spec fn file_name_of(s: Seq<char>) -> Seq<char> {
    s.subrange(after_last_slash(s), s.len() as int)
}

/// The directory part of a path: everything before the last `/`.
pub open spec fn dir_of(s: Seq<char>) -> Seq<char> {
    if after_last_slash(s) == 0 {
        Seq::empty()
    } else {
        s.subrange(0, after_last_slash(s) - 1)
    }
}

/// The position of the dot starting the extension of a file name, if any:
/// the last dot after the last slash.
pub open spec fn ext_dot_of(s: Seq<char>) -> Option<int>
    decreases s.len(),
{
    if s.len() == 0 {
        None
    } else if s.last() == '/' {
        None
    } else if s.last() == '.' {
        Some(s.len() - 1)
    } else {
        ext_dot_of(s.drop_last())
    }
}

/// The extension of a path, if any.
pub open spec fn extension_of(s: Seq<char>) -> Option<Seq<char>> {
    match ext_dot_of(s) {
        None => None,
        Some(i) => Some(s.subrange(i + 1, s.len() as int)),
    }
}

/// The stem of a path: its file name without the extension.
pub open spec fn stem_of(s: Seq<char>) -> Seq<char> {
    match ext_dot_of(s) {
        None => file_name_of(s),
        Some(i) => s.subrange(after_last_slash(s), i),
    }
}

/// Join two path fragments with a single separator; an absolute second
/// fragment replaces the first.
pub open spec fn join_path(a: Seq<char>, b: Seq<char>) -> Seq<char> {
    if b.len() > 0 && b[0] == '/' {
        b
    } else if a.len() == 0 {
        b
    } else {
        a + seq!['/'] + b
    }
}

/// The filename chosen by an association list for a resolved path, if any.
pub open spec fn assoc_name(s: Seq<(Seq<char>, Seq<char>)>, k: Seq<char>) -> Option<Seq<char>>
    decreases s.len(),
{
    if s.len() == 0 {
        None
    } else if s[0].0 == k {
        Some(s[0].1)
    } else {
        assoc_name(s.drop_first(), k)
    }
}

/// After recording a name for a path, looking the path up finds that name.
pub proof fn lemma_assoc_after_push(s: Seq<(Seq<char>, Seq<char>)>, k: Seq<char>, v: Seq<char>)
    requires
        assoc_name(s, k) is None,
    ensures
        assoc_name(s.push((k, v)), k) == Some(v),
    decreases s.len(),
{
    if s.len() == 0 {
        assert(s.push((k, v))[0] == (k, v));
    } else {
        assert(s.push((k, v))[0] == s[0]);
        assert(s.push((k, v)).drop_first() =~= s.drop_first().push((k, v)));
        lemma_assoc_after_push(s.drop_first(), k, v);
    }
}

/// Spaces replaced by underscores.
pub open spec fn underscored(s: Seq<char>) -> Seq<char> {
    s.map_values(|c: char| if c == ' ' { '_' } else { c })
}

/// The fresh file name chosen for a resolved source path around a
/// generated identifier: the sanitized, lowered, underscored stem, a
/// separating dash, the identifier, and the lowered extension if any.
pub open spec fn fresh_name_of(resolved: Seq<char>, ident: Seq<char>) -> Seq<char> {
    underscored(lower_of(sanitized_name_of(stem_of(resolved)))) + seq!['-'] + ident + (
    match extension_of(resolved) {
        Some(e) => seq!['.'] + lower_of(e),
        None => Seq::<char>::empty(),
    })
}

/// The relocation-relevant state of the pass, as one mathematical value.
#[verifier::ext_equal]
pub struct MoverModel {
    pub base_dir: Seq<char>,
    pub assets_dir: Seq<char>,
    pub current_file: Seq<char>,
    pub prefix: Seq<char>,
    pub extensions: Seq<Seq<char>>,
    pub existing: Seq<Seq<char>>,
    pub moved: Seq<(Seq<char>, Seq<char>)>,
    pub copies: Seq<(Seq<char>, Seq<char>)>,
}

/// The fixed table of asset file extensions the pass relocates.
pub open spec fn default_extensions() -> Seq<Seq<char>> {
    seq![
        "jpg"@,
        "jpeg"@,
        "png"@,
        "gif"@,
        "svg"@,
        "css"@,
        "js"@,
        "woff"@,
        "woff2"@,
        "ttf"@,
        "eot"@,
        "mp4"@,
        "webm"@,
        "ogg"@,
        "mov"@,
        "avi"@,
        "mkv"@,
    ]
}

/// Is a reference value one the pass relocates: neither remote nor a data
/// url, and carrying an extension whose lowering is an asset kind.
pub open spec fn candidate(m: MoverModel, value: Seq<char>) -> bool {
    &&& !has_prefix(value, "http"@)
    &&& !has_prefix(value, "data:"@)
    &&& match extension_of(value) {
        Some(e) => m.extensions.contains(lower_of(e)),
        None => false,
    }
}

/// The on-disk path a reference value resolves to: the source root, the
/// document's own directory and the value joined, then lexically cleaned.
pub open spec fn resolved_path(m: MoverModel, value: Seq<char>) -> Seq<char> {
    cleaned_path_of(join_path(join_path(m.base_dir, dir_of(m.current_file)), value))
}

/// One relocation, exactly: whether one reference value is rewritten, and
/// how the memo and the copy plan change.  A non-candidate value, and one
/// whose resolved path is not reported as existing, changes nothing.  A
/// relocated value whose resolved path is already in the memo reuses the
/// recorded name and plans nothing; a fresh one records a name of the
/// chosen shape around a generated identifier and plans exactly one copy.
pub open spec fn relocates(
    m: MoverModel,
    value: Seq<char>,
    m2: MoverModel,
    out: Option<Seq<char>>,
) -> bool {
    &&& m2.base_dir == m.base_dir
    &&& m2.assets_dir == m.assets_dir
    &&& m2.current_file == m.current_file
    &&& m2.prefix == m.prefix
    &&& m2.extensions == m.extensions
    &&& m2.existing == m.existing
    &&& match out {
        None => {
            &&& m2.moved == m.moved
            &&& m2.copies == m.copies
            &&& !(candidate(m, value) && m.existing.contains(resolved_path(m, value)))
        },
        Some(newref) => {
            let resolved = resolved_path(m, value);
            &&& candidate(m, value)
            &&& m.existing.contains(resolved)
            &&& match assoc_name(m.moved, resolved) {
                Some(f) => {
                    &&& m2.moved == m.moved
                    &&& m2.copies == m.copies
                    &&& newref == join_path(m.prefix, f)
                },
                None => exists|ident: Seq<char>|
                    {
                        let chosen = fresh_name_of(resolved, ident);
                        &&& #[trigger] ident_shaped(ident)
                        &&& m2.moved == m.moved.push((resolved, chosen))
                        &&& m2.copies == m.copies.push(
                            (resolved, join_path(m.assets_dir, chosen)),
                        )
                        &&& newref == join_path(m.prefix, chosen)
                    },
            }
        },
    }
}

/// Law: relocation is idempotent per distinct resolved source path.  Two
/// successive relocations whose values resolve to the same on-disk path
/// yield the identical new reference, and the second records nothing and
/// plans no further copy, so exactly one copy of the file is planned.
pub proof fn lemma_relocation_idempotent(
    m: MoverModel,
    m1: MoverModel,
    m2: MoverModel,
    value1: Seq<char>,
    value2: Seq<char>,
    r1: Seq<char>,
    r2: Seq<char>,
)
    requires
        relocates(m, value1, m1, Some(r1)),
        relocates(m1, value2, m2, Some(r2)),
        resolved_path(m, value1) == resolved_path(m1, value2),
    ensures
        r2 == r1,
        m2.moved == m1.moved,
        m2.copies == m1.copies,
{
    let resolved = resolved_path(m, value1);
    match assoc_name(m.moved, resolved) {
        Some(f) => {
            assert(r1 == join_path(m.prefix, f));
            assert(assoc_name(m1.moved, resolved) == Some(f));
            assert(r2 == join_path(m1.prefix, f));
        },
        None => {
            let ident = choose|ident: Seq<char>|
                {
                    let chosen = fresh_name_of(resolved, ident);
                    &&& #[trigger] ident_shaped(ident)
                    &&& m1.moved == m.moved.push((resolved, chosen))
                    &&& m1.copies == m.copies.push((resolved, join_path(m.assets_dir, chosen)))
                    &&& r1 == join_path(m.prefix, chosen)
                };
            let chosen = fresh_name_of(resolved, ident);
            lemma_assoc_after_push(m.moved, resolved, chosen);
            assert(assoc_name(m1.moved, resolved) == Some(chosen));
            assert(r2 == join_path(m1.prefix, chosen));
        },
    }
}

/// A visitor that plans asset relocation and rewrites reference attributes.
pub struct AssetMoverVisitor {
    base_dir: String,
    assets_dir: String,
    current_file_path: String,
    assets_prefix: String,
    asset_extensions: Vec<String>,
    existing: Vec<String>,
    moved: Vec<(String, String)>,
    copies: Vec<(String, String)>,
}

impl AssetMoverVisitor {
    /// The memo of resolved source paths and their chosen filenames.
    pub closed spec fn spec_moved(&self) -> Seq<(Seq<char>, Seq<char>)> {
        self.moved@.map_values(|e: (String, String)| (e.0@, e.1@))
    }

    /// The copy plan: resolved source paths and their destinations.
    pub closed spec fn spec_copies(&self) -> Seq<(Seq<char>, Seq<char>)> {
        self.copies@.map_values(|e: (String, String)| (e.0@, e.1@))
    }

    /// The set of resolved paths the caller reported as existing.
    pub closed spec fn spec_existing(&self) -> Seq<Seq<char>> {
        self.existing@.map_values(|s: String| s@)
    }

    /// The asset file extensions this pass relocates.
    pub closed spec fn spec_extensions(&self) -> Seq<Seq<char>> {
        self.asset_extensions@.map_values(|s: String| s@)
    }

    /// The source tree root.
    pub closed spec fn spec_base_dir(&self) -> Seq<char> {
        self.base_dir@
    }

    /// The assets directory.
    pub closed spec fn spec_assets_dir(&self) -> Seq<char> {
        self.assets_dir@
    }

    /// The processed document's path, relative to the source tree root.
    pub closed spec fn spec_current_file(&self) -> Seq<char> {
        self.current_file_path@
    }

    /// The reference prefix written into rewritten attributes.
    pub closed spec fn spec_prefix(&self) -> Seq<char> {
        self.assets_prefix@
    }

    /// The pass's relocation-relevant state as one mathematical value.
    pub open spec fn model(&self) -> MoverModel {
        MoverModel {
            base_dir: self.spec_base_dir(),
            assets_dir: self.spec_assets_dir(),
            current_file: self.spec_current_file(),
            prefix: self.spec_prefix(),
            extensions: self.spec_extensions(),
            existing: self.spec_existing(),
            moved: self.spec_moved(),
            copies: self.spec_copies(),
        }
    }

    /// A fresh visitor for one source tree, assets directory and document:
    /// the three paths as given, the default reference prefix, the fixed
    /// extension table, and an empty memo, plan and existing set.
    pub fn new(base_dir: String, assets_dir: String, current_file_path: String) -> (v:
        AssetMoverVisitor)
        ensures
            v.model() == (MoverModel {
                base_dir: base_dir@,
                assets_dir: assets_dir@,
                current_file: current_file_path@,
                prefix: "/assets"@,
                extensions: default_extensions(),
                existing: Seq::<Seq<char>>::empty(),
                moved: Seq::<(Seq<char>, Seq<char>)>::empty(),
                copies: Seq::<(Seq<char>, Seq<char>)>::empty(),
            }),
    {
        let mut exts: Vec<String> = Vec::new();
        exts.push(String::from_str("jpg"));
        exts.push(String::from_str("jpeg"));
        exts.push(String::from_str("png"));
        exts.push(String::from_str("gif"));
        exts.push(String::from_str("svg"));
        exts.push(String::from_str("css"));
        exts.push(String::from_str("js"));
        exts.push(String::from_str("woff"));
        exts.push(String::from_str("woff2"));
        exts.push(String::from_str("ttf"));
        exts.push(String::from_str("eot"));
        exts.push(String::from_str("mp4"));
        exts.push(String::from_str("webm"));
        exts.push(String::from_str("ogg"));
        exts.push(String::from_str("mov"));
        exts.push(String::from_str("avi"));
        exts.push(String::from_str("mkv"));
        let v = AssetMoverVisitor {
            base_dir,
            assets_dir,
            current_file_path,
            assets_prefix: String::from_str("/assets"),
            asset_extensions: exts,
            existing: Vec::new(),
            moved: Vec::new(),
            copies: Vec::new(),
        };
        proof {
            assert(v.spec_moved() =~= Seq::<(Seq<char>, Seq<char>)>::empty());
            assert(v.spec_copies() =~= Seq::<(Seq<char>, Seq<char>)>::empty());
            assert(v.spec_existing() =~= Seq::<Seq<char>>::empty());
            assert(v.spec_extensions() =~= default_extensions());
            assert(v.model() =~~= (MoverModel {
                base_dir: base_dir@,
                assets_dir: assets_dir@,
                current_file: current_file_path@,
                prefix: "/assets"@,
                extensions: default_extensions(),
                existing: Seq::<Seq<char>>::empty(),
                moved: Seq::<(Seq<char>, Seq<char>)>::empty(),
                copies: Seq::<(Seq<char>, Seq<char>)>::empty(),
            }));
        }
        v
    }

    /// The same visitor with another reference prefix for rewritten
    /// attributes; every other part of the state is kept.
    pub fn with_assets_prefix(self, prefix: String) -> (v: AssetMoverVisitor)
        ensures
            v.model() == (MoverModel { prefix: prefix@, ..self.model() }),
    {
        let v = AssetMoverVisitor { assets_prefix: prefix, ..self };
        proof {
            assert(v.model() =~~= (MoverModel { prefix: prefix@, ..self.model() }));
        }
        v
    }

    /// The same visitor told which resolved paths exist on disk; every
    /// other part of the state is kept.
    pub fn with_existing(self, existing: Vec<String>) -> (v: AssetMoverVisitor)
        ensures
            v.model() == (MoverModel {
                existing: existing@.map_values(|s: String| s@),
                ..self.model()
            }),
    {
        let v = AssetMoverVisitor { existing, ..self };
        proof {
            assert(v.model() =~~= (MoverModel {
                existing: existing@.map_values(|s: String| s@),
                ..self.model()
            }));
        }
        v
    }

    /// The same visitor seeded with an earlier memo, so that relocation
    /// stays idempotent across documents; every other part of the state is
    /// kept.
    pub fn with_moved(self, moved: Vec<(String, String)>) -> (v: AssetMoverVisitor)
        ensures
            v.model() == (MoverModel {
                moved: moved@.map_values(|e: (String, String)| (e.0@, e.1@)),
                ..self.model()
            }),
    {
        let v = AssetMoverVisitor { moved, ..self };
        proof {
            assert(v.model() =~~= (MoverModel {
                moved: moved@.map_values(|e: (String, String)| (e.0@, e.1@)),
                ..self.model()
            }));
        }
        v
    }

    /// The memo entries, for carrying over to the next document.
    pub fn moved_entries(&self) -> (r: &Vec<(String, String)>)
        ensures
            r@.map_values(|e: (String, String)| (e.0@, e.1@)) == self.spec_moved(),
    {
        &self.moved
    }

    /// The copy plan for the caller to carry out.
    pub fn copy_plan(&self) -> (r: &Vec<(String, String)>)
        ensures
            r@.map_values(|e: (String, String)| (e.0@, e.1@)) == self.spec_copies(),
    {
        &self.copies
    }

    /// The resolved on-disk path a reference value points at, exactly when
    /// the value is neither remote nor a data url and carries an asset
    /// extension.
    pub fn resolve_candidate(&self, value: &str) -> (r: Option<String>)
        ensures
            r is Some <==> candidate(self.model(), value@),
            r matches Some(p) ==> p@ == resolved_path(self.model(), value@),
    {
        if starts_with(value, "http") || starts_with(value, "data:") {
            return None;
        }
        let ext = match extension_exec(value) {
            Some(e) => e,
            None => {
                return None;
            },
        };
        let lowered = to_lower(ext.as_str());
        if !self.has_extension(lowered.as_str()) {
            return None;
        }
        let dir = dir_exec(self.current_file_path.as_str());
        let joined = join_exec(self.base_dir.as_str(), dir.as_str());
        let full = join_exec(joined.as_str(), value);
        Some(clean_path(full.as_str()))
    }

    /// Is this lowered extension one of the asset kinds?
    fn has_extension(&self, ext: &str) -> (r: bool)
        ensures
            r == self.spec_extensions().contains(ext@),
    {
        let n = self.asset_extensions.len();
        let mut i: usize = 0;
        while i < n
            invariant
                i <= n,
                n == self.asset_extensions@.len(),
                forall|w: int| 0 <= w < i ==> (#[trigger] self.spec_extensions()[w]) != ext@,
            decreases n - i,
        {
            if str_eq(self.asset_extensions[i].as_str(), ext) {
                proof {
                    assert(self.spec_extensions()[i as int] == ext@);
                }
                return true;
            }
            i = i + 1;
        }
        proof {
            if self.spec_extensions().contains(ext@) {
                let w = choose|w: int|
                    0 <= w < self.spec_extensions().len() && self.spec_extensions()[w] == ext@;
                assert(self.spec_extensions()[w] != ext@);
            }
        }
        false
    }

    /// Is this resolved path among those the caller reported as existing?
    fn path_exists(&self, p: &str) -> (r: bool)
        ensures
            r == self.spec_existing().contains(p@),
    {
        let n = self.existing.len();
        let mut i: usize = 0;
        while i < n
            invariant
                i <= n,
                n == self.existing@.len(),
                forall|w: int| 0 <= w < i ==> (#[trigger] self.spec_existing()[w]) != p@,
            decreases n - i,
        {
            if str_eq(self.existing[i].as_str(), p) {
                proof {
                    assert(self.spec_existing()[i as int] == p@);
                }
                return true;
            }
            i = i + 1;
        }
        proof {
            if self.spec_existing().contains(p@) {
                let w = choose|w: int|
                    0 <= w < self.spec_existing().len() && self.spec_existing()[w] == p@;
                assert(self.spec_existing()[w] != p@);
            }
        }
        false
    }

    /// Plan the relocation of one reference value.  Remote, data and
    /// non-asset references, and paths the caller did not report as
    /// existing, are left alone.  Otherwise the resolved path's recorded
    /// name is reused, or a fresh one of the chosen shape is recorded and
    /// planned for one copy; the new reference under the assets prefix is
    /// returned.
    pub fn process_asset_path(&mut self, value: &str) -> (r: Option<String>)
        ensures
            relocates(
                old(self).model(),
                value@,
                final(self).model(),
                match r {
                    Some(s) => Some(s@),
                    None => None,
                },
            ),
    {
        let ghost m = self.model();
        let resolved = match self.resolve_candidate(value) {
            Some(p) => p,
            None => {
                return None;
            },
        };
        if !self.path_exists(resolved.as_str()) {
            return None;
        }
        // Reuse the recorded name when this path was planned before.
        let ghost m0 = self.spec_moved();
        let n = self.moved.len();
        let mut i: usize = 0;
        proof {
            assert(m0.subrange(0, n as int) =~= m0);
        }
        while i < n
            invariant
                i <= n,
                self == old(self),
                m == old(self).model(),
                n == self.moved@.len(),
                m0 == self.spec_moved(),
                candidate(m, value@),
                resolved@ == resolved_path(m, value@),
                self.spec_existing().contains(resolved@),
                assoc_name(m0, resolved@) == assoc_name(
                    m0.subrange(i as int, n as int),
                    resolved@,
                ),
            decreases n - i,
        {
            proof {
                let rest = m0.subrange(i as int, n as int);
                assert(rest[0] == m0[i as int]);
                assert(rest.drop_first() =~= m0.subrange(i + 1, n as int));
            }
            if str_eq(self.moved[i].0.as_str(), resolved.as_str()) {
                let f = self.moved[i].1.clone();
                let out = join_exec(self.assets_prefix.as_str(), f.as_str());
                proof {
                    assert(m0[i as int] == (self.moved@[i as int].0@, self.moved@[i as int].1@));
                    assert(m0[i as int].0 == resolved@);
                    assert(f@ == m0[i as int].1);
                    assert(assoc_name(m0.subrange(i as int, n as int), resolved@) == Some(
                        m0[i as int].1,
                    )) by {
                        let rest = m0.subrange(i as int, n as int);
                        assert(rest[0] == m0[i as int]);
                    }
                    assert(assoc_name(m.moved, resolved@) == Some(f@));
                    assert(relocates(m, value@, self.model(), Some(out@)));
                }
                return Some(out);
            }
            i = i + 1;
        }
        proof {
            assert(m0.subrange(n as int, n as int) =~= Seq::<(Seq<char>, Seq<char>)>::empty());
            assert(assoc_name(m0, resolved@) is None);
        }
        // A fresh path: choose a sanitized, collision-resistant name.
        let stem = stem_exec(resolved.as_str());
        let sanitized = sanitize_name(stem.as_str());
        let lowered_stem = to_lower(sanitized.as_str());
        let stem_part = spaces_to_underscores(lowered_stem.as_str());
        let ext_part: String = match extension_exec(resolved.as_str()) {
            Some(e) => {
                let le = to_lower(e.as_str());
                let mut dotted: Vec<char> = Vec::new();
                dotted.push('.');
                push_str_chars(&mut dotted, le.as_str());
                chars_to_string(dotted)
            },
            None => String::new(),
        };
        proof {
            assert(ext_part@ == (match extension_of(resolved@) {
                Some(e) => seq!['.'] + lower_of(e),
                None => Seq::<char>::empty(),
            }));
        }
        let fresh = fresh_uuid_string();
        let mut name_chars: Vec<char> = Vec::new();
        push_str_chars(&mut name_chars, stem_part.as_str());
        name_chars.push('-');
        push_str_chars(&mut name_chars, fresh.as_str());
        push_str_chars(&mut name_chars, ext_part.as_str());
        let new_filename = chars_to_string(name_chars);
        proof {
            assert(new_filename@ =~= fresh_name_of(resolved@, fresh@));
        }
        let dest = join_exec(self.assets_dir.as_str(), new_filename.as_str());
        let ghost c0 = self.spec_copies();
        self.moved.push((resolved.clone(), new_filename.clone()));
        self.copies.push((resolved.clone(), dest.clone()));
        let out = join_exec(self.assets_prefix.as_str(), new_filename.as_str());
        proof {
            assert(self.spec_moved() =~= m0.push((resolved@, new_filename@)));
            assert(self.spec_copies() =~= c0.push((resolved@, dest@)));
            let chosen = fresh_name_of(resolved@, fresh@);
            assert(ident_shaped(fresh@) && self.model().moved == m.moved.push((resolved@, chosen))
                && self.model().copies == m.copies.push(
                (resolved@, join_path(m.assets_dir, chosen)),
            ) && out@ == join_path(m.prefix, chosen));
            assert(relocates(m, value@, self.model(), Some(out@)));
        }
        Some(out)
    }
}

/// Does the string start with this prefix?
fn starts_with(s: &str, p: &str) -> (r: bool)
    ensures
        r == has_prefix(s@, p@),
{
    let sc = str_to_chars(s);
    let pc = str_to_chars(p);
    let m = pc.len();
    if sc.len() < m {
        return false;
    }
    let mut i: usize = 0;
    while i < m
        invariant
            i <= m,
            m == pc@.len(),
            m <= sc@.len(),
            sc@ == s@,
            pc@ == p@,
            forall|w: int| 0 <= w < i ==> s@[w] == p@[w],
        decreases m - i,
    {
        if sc[i] != pc[i] {
            proof {
                assert(s@.subrange(0, p@.len() as int)[i as int] == s@[i as int]);
            }
            return false;
        }
        i = i + 1;
    }
    proof {
        assert(s@.subrange(0, p@.len() as int) =~= p@);
    }
    true
}

/// The extension of a path, if any.
fn extension_exec(s: &str) -> (r: Option<String>)
    ensures
        match r {
            Some(e) => extension_of(s@) == Some(e@),
            None => extension_of(s@) is None,
        },
{
    let cs = str_to_chars(s);
    let n = cs.len();
    let mut j: usize = n;
    proof {
        assert(s@.subrange(0, n as int) =~= s@);
    }
    while j > 0
        invariant
            j <= n,
            n == cs@.len(),
            cs@ == s@,
            ext_dot_of(s@) == ext_dot_of(s@.subrange(0, j as int)),
        decreases j,
    {
        proof {
            let cur = s@.subrange(0, j as int);
            assert(cur.last() == s@[j - 1]);
            assert(cur.drop_last() =~= s@.subrange(0, j - 1));
        }
        if cs[j - 1] == '/' {
            return None;
        }
        if cs[j - 1] == '.' {
            let mut out: Vec<char> = Vec::new();
            let mut i: usize = j;
            while i < n
                invariant
                    j <= i <= n,
                    n == cs@.len(),
                    cs@ == s@,
                    out@ == s@.subrange(j as int, i as int),
                decreases n - i,
            {
                out.push(cs[i]);
                proof {
                    assert(out@ =~= s@.subrange(j as int, i + 1));
                }
                i = i + 1;
            }
            proof {
                let cur = s@.subrange(0, j as int);
                assert(ext_dot_of(cur) == Some(j - 1));
                assert(extension_of(s@) == Some(s@.subrange(j as int, s@.len() as int)));
                assert(out@ == s@.subrange(j as int, n as int));
            }
            return Some(chars_to_string(out));
        }
        j = j - 1;
    }
    proof {
        assert(s@.subrange(0, 0) =~= Seq::<char>::empty());
    }
    None
}

/// The stem of a path: its file name without the extension.
fn stem_exec(s: &str) -> (r: String)
    ensures
        r@ == stem_of(s@),
{
    let cs = str_to_chars(s);
    let n = cs.len();
    // Find the character position after the last slash.
    let mut a: usize = n;
    proof {
        assert(s@.subrange(0, n as int) =~= s@);
    }
    while a > 0 && cs[a - 1] != '/'
        invariant
            a <= n,
            n == cs@.len(),
            cs@ == s@,
            after_last_slash(s@) == after_last_slash(s@.subrange(0, a as int)),
            forall|w: int| a <= w < n ==> s@[w] != '/',
        decreases a,
    {
        proof {
            let cur = s@.subrange(0, a as int);
            assert(cur.last() == s@[a - 1]);
            assert(cur.drop_last() =~= s@.subrange(0, a - 1));
        }
        a = a - 1;
    }
    proof {
        let cur = s@.subrange(0, a as int);
        if a > 0 {
            assert(cur.last() == s@[a - 1]);
        }
        assert(after_last_slash(cur) == a as int);
    }
    // Find the dot position, if any, after the last slash.
    let mut have_dot = false;
    let mut dotpos: usize = 0;
    let mut j: usize = n;
    proof {
        assert(s@.subrange(0, n as int) =~= s@);
    }
    while j > a && !have_dot
        invariant
            a <= j <= n,
            n == cs@.len(),
            cs@ == s@,
            forall|w: int| a <= w < n ==> s@[w] != '/',
            !have_dot ==> ext_dot_of(s@) == ext_dot_of(s@.subrange(0, j as int)),
            have_dot ==> ext_dot_of(s@) == Some(dotpos as int) && a <= dotpos < n,
        decreases j - a + (if have_dot {
            0int
        } else {
            1int
        }),
    {
        proof {
            let cur = s@.subrange(0, j as int);
            assert(cur.last() == s@[j - 1]);
            assert(cur.drop_last() =~= s@.subrange(0, j - 1));
        }
        if cs[j - 1] == '.' {
            have_dot = true;
            dotpos = j - 1;
        } else {
            j = j - 1;
        }
    }
    proof {
        if !have_dot {
            let cur = s@.subrange(0, a as int);
            assert(ext_dot_of(s@) == ext_dot_of(cur));
            if a > 0 {
                assert(cur.last() == s@[a - 1]);
                assert(ext_dot_of(cur) is None);
            }
        }
    }
    let stop = if have_dot {
        dotpos
    } else {
        n
    };
    let mut out: Vec<char> = Vec::new();
    let mut i: usize = a;
    while i < stop
        invariant
            a <= i <= stop <= n,
            n == cs@.len(),
            cs@ == s@,
            out@ == s@.subrange(a as int, i as int),
        decreases stop - i,
    {
        out.push(cs[i]);
        proof {
            assert(out@ =~= s@.subrange(a as int, i + 1));
        }
        i = i + 1;
    }
    proof {
        assert(out@ == s@.subrange(a as int, stop as int));
        if have_dot {
            assert(stem_of(s@) == s@.subrange(after_last_slash(s@), dotpos as int));
        } else {
            assert(stem_of(s@) == file_name_of(s@));
        }
    }
    chars_to_string(out)
}

/// The directory part of a path.
fn dir_exec(s: &str) -> (r: String)
    ensures
        r@ == dir_of(s@),
{
    let cs = str_to_chars(s);
    let n = cs.len();
    let mut a: usize = n;
    proof {
        assert(s@.subrange(0, n as int) =~= s@);
    }
    while a > 0 && cs[a - 1] != '/'
        invariant
            a <= n,
            n == cs@.len(),
            cs@ == s@,
            after_last_slash(s@) == after_last_slash(s@.subrange(0, a as int)),
        decreases a,
    {
        proof {
            let cur = s@.subrange(0, a as int);
            assert(cur.last() == s@[a - 1]);
            assert(cur.drop_last() =~= s@.subrange(0, a - 1));
        }
        a = a - 1;
    }
    proof {
        let cur = s@.subrange(0, a as int);
        if a > 0 {
            assert(cur.last() == s@[a - 1]);
        }
        assert(after_last_slash(cur) == a as int);
    }
    let mut out: Vec<char> = Vec::new();
    if a == 0 {
        proof {
            assert(out@ =~= dir_of(s@));
        }
        return chars_to_string(out);
    }
    let stop = a - 1;
    let mut i: usize = 0;
    while i < stop
        invariant
            i <= stop,
            stop < n,
            n == cs@.len(),
            cs@ == s@,
            out@ == s@.subrange(0, i as int),
        decreases stop - i,
    {
        out.push(cs[i]);
        proof {
            assert(out@ =~= s@.subrange(0, i + 1));
        }
        i = i + 1;
    }
    proof {
        assert(out@ == s@.subrange(0, stop as int));
    }
    chars_to_string(out)
}

/// Join two path fragments with a single separator.
fn join_exec(a: &str, b: &str) -> (r: String)
    ensures
        r@ == join_path(a@, b@),
{
    let bc = str_to_chars(b);
    if bc.len() > 0 && bc[0] == '/' {
        proof {
            assert(b@[0] == '/');
        }
        return b.to_owned();
    }
    let ac = str_to_chars(a);
    if ac.len() == 0 {
        return b.to_owned();
    }
    let mut out: Vec<char> = Vec::new();
    push_str_chars(&mut out, a);
    out.push('/');
    push_str_chars(&mut out, b);
    proof {
        assert(out@ =~= join_path(a@, b@));
    }
    chars_to_string(out)
}

/// Spaces replaced by underscores.
fn spaces_to_underscores(s: &str) -> (r: String)
    ensures
        r@ == underscored(s@),
{
    let cs = str_to_chars(s);
    let n = cs.len();
    let mut out: Vec<char> = Vec::new();
    let mut i: usize = 0;
    while i < n
        invariant
            i <= n,
            n == cs@.len(),
            cs@ == s@,
            out@ == underscored(s@.subrange(0, i as int)),
        decreases n - i,
    {
        let c = cs[i];
        if c == ' ' {
            out.push('_');
        } else {
            out.push(c);
        }
        proof {
            assert(out@ =~= underscored(s@.subrange(0, i + 1)));
        }
        i = i + 1;
    }
    proof {
        assert(s@.subrange(0, n as int) =~= s@);
    }
    chars_to_string(out)
}

/// Is the `i`-th attribute a reference attribute this pass rewrites: a
/// `src` or `href` value, or a `poster` value on a `video` element?
pub open spec fn relevant_attr(is_video: bool, name: Seq<char>) -> bool {
    name == "src"@ || name == "href"@ || (is_video && name == "poster"@)
}

/// One position of the attribute rewrite: at position `i`, a relevant
/// reference attribute whose value the pass relocates has the new
/// reference written through the first attribute of its name; any other
/// attribute changes nothing.
pub open spec fn rewrite_step(
    m: MoverModel,
    is_video: bool,
    a: Seq<AttrView>,
    i: int,
    a2: Seq<AttrView>,
    m2: MoverModel,
) -> bool {
    if relevant_attr(is_video, a[i].name) {
        exists|out: Option<Seq<char>>|
            {
                &&& #[trigger] relocates(m, a[i].value, m2, out)
                &&& a2 == (match out {
                    Some(nr) => set_attr_m(a, a[i].name, nr),
                    None => a,
                })
            }
    } else {
        a2 == a && m2 == m
    }
}

/// The attribute rewrite from position `i` on: every position from `i` up
/// to `n` is processed in order by one [`rewrite_step`].
pub open spec fn rewritten_from(
    m: MoverModel,
    is_video: bool,
    a: Seq<AttrView>,
    i: int,
    n: int,
    a1: Seq<AttrView>,
    m1: MoverModel,
) -> bool
    decreases n - i,
{
    if i >= n {
        a1 == a && m1 == m
    } else {
        exists|am: Seq<AttrView>, mm: MoverModel|
            {
                &&& #[trigger] rewrite_step(m, is_video, a, i, am, mm)
                &&& rewritten_from(mm, is_video, am, i + 1, n, a1, m1)
            }
    }
}

/// The element rewrite as one relation: the tree after the pass equals the
/// tree before with the element's attribute list replaced by one the
/// in-order rewrite produces, the same rewrite taking the pass state from
/// `m0` to `m1`.
pub open spec fn element_rewritten(
    m0: MoverModel,
    d: DomView,
    hi: int,
    d1: DomView,
    m1: MoverModel,
) -> bool {
    exists|a1: Seq<AttrView>|
        {
            &&& d1 == set_attrs_m(d, hi, a1)
            &&& #[trigger] rewritten_from(
                m0,
                elem_is_video(d, hi),
                attrs_of(d, hi),
                0,
                attrs_of(d, hi).len() as int,
                a1,
                m1,
            )
        }
}

/// Is the element a `video` element?
pub open spec fn elem_is_video(d: DomView, hi: int) -> bool {
    match d.nodes[hi].data {
        DataView::Element { name, .. } => name.local == "video"@,
        _ => false,
    }
}

/// Updating an attribute whose name is present keeps the list's length.
proof fn lemma_set_attr_keeps_len(attrs: Seq<AttrView>, j: int, v: Seq<char>)
    requires
        0 <= j < attrs.len(),
    ensures
        set_attr_m(attrs, attrs[j].name, v).len() == attrs.len(),
    decreases j,
{
    let n = attrs[j].name;
    if attrs[0].name == n {
    } else {
        assert(j >= 1);
        assert(attrs.drop_first()[j - 1] == attrs[j]);
        lemma_set_attr_keeps_len(attrs.drop_first(), j - 1, v);
    }
}

impl NodeVisitor for AssetMoverVisitor {
    /// The pass acts on elements alone, rewriting reference attributes and
    /// evolving the relocation state; every other kind passes through
    /// untouched.
    open spec fn callback_ok(
        &self,
        pre: Self,
        d0: DomView,
        h: int,
        d1: DomView,
        rep: Option<int>,
        cont: bool,
    ) -> bool {
        match d0.nodes[h].data {
            DataView::Element { .. } => rep is None && cont && element_rewritten(
                pre.model(),
                d0,
                h,
                d1,
                self.model(),
            ),
            _ => d1 == d0 && *self == pre && rep is None && cont,
        }
    }

    fn visit_document(&mut self, dom: &mut Dom, h: Handle) -> (r: (Option<Handle>, bool)) {
        (None, true)
    }

    fn visit_doctype(&mut self, dom: &mut Dom, h: Handle) -> (r: (Option<Handle>, bool)) {
        (None, true)
    }

    fn visit_text(&mut self, dom: &mut Dom, h: Handle) -> (r: (Option<Handle>, bool)) {
        (None, true)
    }

    fn visit_comment(&mut self, dom: &mut Dom, h: Handle) -> (r: (Option<Handle>, bool)) {
        (None, true)
    }

    fn visit_processing_instruction(&mut self, dom: &mut Dom, h: Handle) -> (r: (
        Option<Handle>,
        bool,
    )) {
        (None, true)
    }

    /// Rewrite every reference attribute (`src` and `href` values, and
    /// `video` poster references) whose value resolves to a known asset:
    /// each attribute position is processed in order by one relocation
    /// step, and nothing else of the tree changes.
    fn visit_element(&mut self, dom: &mut Dom, h: Handle) -> (r: (Option<Handle>, bool))
        ensures
            r == (None::<Handle>, true),
            element_rewritten(
                old(self).model(),
                old(dom)@,
                h.idx as int,
                final(dom)@,
                final(self).model(),
            ),
    {
        proof {
            reveal_strlit("video");
        }
        let ghost d = dom@;
        let ghost hi = h.idx as int;
        let ghost m_init = self.model();
        let ghost a0 = attrs_of(d, hi);
        let (local, n_attrs): (String, usize) = match dom.data(h) {
            NodeData::Element { name, attrs, .. } => {
                proof {
                    assert(d.nodes[hi].data matches DataView::Element { name: nv, attrs: av, .. }
                        && nv == name@ && av == attrs@.map_values(|a: Attr| a@));
                }
                (name.local.clone(), attrs.len())
            },
            _ => {
                proof {
                    assert(false);
                }
                (String::new(), 0)
            },
        };
        let is_video = str_eq(local.as_str(), "video");
        let ghost iv = match d.nodes[hi].data {
            DataView::Element { name, .. } => name.local == "video"@,
            _ => false,
        };
        let ghost mut acur = a0;
        let mut i: usize = 0;
        proof {
            assert(is_video == iv);
            assert(dom@.nodes =~~= set_attrs_m(d, hi, a0).nodes);
            assert(dom@ =~~= set_attrs_m(d, hi, a0));
        }
        while i < n_attrs
            invariant
                i <= n_attrs,
                dom.wf(),
                crate::dom::wf(d),
                valid_id(d, hi),
                hi == h.idx as int,
                d.nodes[hi].data is Element,
                crate::dom::text_coalesced(d) ==> dom.coalesced(),
                a0 == attrs_of(d, hi),
                n_attrs == a0.len(),
                acur.len() == a0.len(),
                is_video == iv,
                m_init == old(self).model(),
                dom@ == set_attrs_m(d, hi, acur),
                forall|af: Seq<AttrView>, mf: MoverModel|
                    rewritten_from(
                        self.model(),
                        iv,
                        acur,
                        i as int,
                        n_attrs as int,
                        af,
                        mf,
                    ) ==> #[trigger] rewritten_from(
                        m_init,
                        iv,
                        a0,
                        0,
                        n_attrs as int,
                        af,
                        mf,
                    ),
            decreases n_attrs - i,
        {
            let ghost m_prev = self.model();
            let ghost a_prev = acur;
            proof {
                assert(dom@.nodes[hi].data matches DataView::Element { attrs, .. } && attrs
                    == acur);
            }
            let (attr_name, attr_value): (Option<String>, Option<String>) = match dom.data(h) {
                NodeData::Element { attrs, .. } => {
                    if i < attrs.len() {
                        (Some(attrs[i].name.clone()), Some(attrs[i].value.clone()))
                    } else {
                        (None, None)
                    }
                },
                _ => (None, None),
            };
            match (attr_name, attr_value) {
                (Some(an), Some(av)) => {
                    proof {
                        assert(an@ == acur[i as int].name);
                        assert(av@ == acur[i as int].value);
                    }
                    let relevant = str_eq(an.as_str(), "src") || str_eq(an.as_str(), "href") || (
                    is_video && str_eq(an.as_str(), "poster"));
                    proof {
                        reveal_strlit("src");
                        reveal_strlit("href");
                        reveal_strlit("poster");
                        assert(relevant == relevant_attr(iv, acur[i as int].name));
                    }
                    if relevant {
                        match self.process_asset_path(av.as_str()) {
                            Some(new_ref) => {
                                let ghost dmid = dom@;
                                let res = dom.update_attr_value(h, an, new_ref);
                                proof {
                                    assert(res is Ok);
                                    acur = set_attr_m(a_prev, an@, new_ref@);
                                    lemma_set_attr_keeps_len(a_prev, i as int, new_ref@);
                                    assert(attrs_of(dmid, hi) == a_prev);
                                    assert(dom@ == set_attrs_m(dmid, hi, acur));
                                    assert(dom@.nodes =~~= set_attrs_m(d, hi, acur).nodes);
                                    assert(dom@ =~~= set_attrs_m(d, hi, acur));
                                    assert(relocates(
                                        m_prev,
                                        a_prev[i as int].value,
                                        self.model(),
                                        Some(new_ref@),
                                    ));
                                    assert(rewrite_step(
                                        m_prev,
                                        iv,
                                        a_prev,
                                        i as int,
                                        acur,
                                        self.model(),
                                    ));
                                }
                            },
                            None => {
                                proof {
                                    assert(relocates(
                                        m_prev,
                                        a_prev[i as int].value,
                                        self.model(),
                                        None::<Seq<char>>,
                                    ));
                                    assert(rewrite_step(
                                        m_prev,
                                        iv,
                                        a_prev,
                                        i as int,
                                        acur,
                                        self.model(),
                                    ));
                                }
                            },
                        }
                    } else {
                        proof {
                            assert(rewrite_step(m_prev, iv, a_prev, i as int, acur, self.model()));
                        }
                    }
                },
                _ => {
                    proof {
                        assert(false);
                    }
                },
            }
            proof {
                assert forall|af: Seq<AttrView>, mf: MoverModel|
                    rewritten_from(
                        self.model(),
                        iv,
                        acur,
                        i + 1,
                        n_attrs as int,
                        af,
                        mf,
                    ) implies #[trigger] rewritten_from(
                    m_init,
                    iv,
                    a0,
                    0,
                    n_attrs as int,
                    af,
                    mf,
                ) by {
                    assert(rewrite_step(m_prev, iv, a_prev, i as int, acur, self.model()));
                    assert(rewritten_from(m_prev, iv, a_prev, i as int, n_attrs as int, af, mf));
                };
            }
            i = i + 1;
        }
        proof {
            assert(rewritten_from(
                self.model(),
                iv,
                acur,
                n_attrs as int,
                n_attrs as int,
                acur,
                self.model(),
            ));
            let dd = old(dom)@;
            let hhi = h.idx as int;
            assert(elem_is_video(dd, hhi) == iv);
            assert(attrs_of(dd, hhi) == a0);
            assert(dom@ == set_attrs_m(dd, hhi, acur));
            assert(rewritten_from(
                old(self).model(),
                elem_is_video(dd, hhi),
                attrs_of(dd, hhi),
                0,
                attrs_of(dd, hhi).len() as int,
                acur,
                self.model(),
            ));
            assert(element_rewritten(old(self).model(), dd, hhi, dom@, self.model()));
        }
        (None, true)
    }
}

} // verus!

