//! Plain data describing a Guix index document and its origin.

use vstd::prelude::*;

verus! {

/// Schema version of the index document format.
pub const SCHEMA_VERSION: u32 = 4;

/// One channel of the Guix installation, identified by name and commit.
#[derive(Debug, Clone, PartialEq, Eq)]
pub struct ChannelPin {
    pub name: String,
    pub commit: String,
}

/// A channel as a pair of texts: name, then commit.
pub type ChannelView = (Seq<char>, Seq<char>);

impl View for ChannelPin {
    type V = ChannelView;

    open spec fn view(&self) -> ChannelView {
        (self.name@, self.commit@)
    }
}

/// Where an index came from. Channel URLs and environment secrets are
/// deliberately not part of it.
#[derive(Debug, Clone, PartialEq, Eq)]
pub struct GuixOrigin {
    pub executable: String,
    pub system: String,
    pub channels: Vec<ChannelPin>,
    pub verified: bool,
    pub mutable_package_path: bool,
}

pub ghost struct OriginView {
    pub executable: Seq<char>,
    pub system: Seq<char>,
    pub channels: Seq<ChannelView>,
    pub verified: bool,
    pub mutable_package_path: bool,
}

impl View for GuixOrigin {
    type V = OriginView;

    open spec fn view(&self) -> OriginView {
        OriginView {
            executable: self.executable@,
            system: self.system@,
            channels: self.channels@.map_values(|c: ChannelPin| c@),
            verified: self.verified,
            mutable_package_path: self.mutable_package_path,
        }
    }
}

/// An origin can key a snapshot only when it was verified, no mutable
/// package path is involved, and every identifying field is present.
pub open spec fn origin_is_verified(o: OriginView) -> bool {
    &&& o.verified
    &&& !o.mutable_package_path
    &&& o.executable.len() > 0
    &&& o.system.len() > 0
    &&& o.channels.len() > 0
    &&& forall|i: int|
        0 <= i < o.channels.len() ==> (#[trigger] o.channels[i]).0.len() > 0
            && o.channels[i].1.len() > 0
}

impl GuixOrigin {
    pub fn is_verified(&self) -> (r: bool)
        ensures
            r == origin_is_verified(self@),
    {
        if !self.verified || self.mutable_package_path || self.executable.as_str().is_empty()
            || self.system.as_str().is_empty() || self.channels.len() == 0 {
            return false;
        }
        let mut i: usize = 0;
        while i < self.channels.len()
            invariant
                i <= self.channels@.len(),
                forall|j: int|
                    0 <= j < i ==> (#[trigger] self.channels@[j]).name@.len() > 0
                        && self.channels@[j].commit@.len() > 0,
            decreases self.channels@.len() - i,
        {
            let c = &self.channels[i];
            if c.name.as_str().is_empty() || c.commit.as_str().is_empty() {
                assert(self@.channels[i as int] == self.channels@[i as int]@);
                return false;
            }
            i += 1;
        }
        assert(forall|j: int|
            0 <= j < self@.channels.len() ==> #[trigger] self@.channels[j] == self.channels@[j]@);
        true
    }
}

/// An origin that says nothing: empty texts, no channels, not verified.
pub open spec fn empty_origin() -> OriginView {
    OriginView {
        executable: Seq::empty(),
        system: Seq::empty(),
        channels: Seq::empty(),
        verified: false,
        mutable_package_path: false,
    }
}

impl Default for GuixOrigin {
    fn default() -> (r: Self)
        ensures
            r@ == empty_origin(),
    {
        let r = GuixOrigin {
            executable: String::new(),
            system: String::new(),
            channels: Vec::new(),
            verified: false,
            mutable_package_path: false,
        };
        assert(r@.channels =~= Seq::<ChannelView>::empty());
        assert(r@.executable =~= Seq::<char>::empty());
        assert(r@.system =~= Seq::<char>::empty());
        r
    }
}

/// A recoverable extraction failure. An index with diagnostics is incomplete.
#[derive(Debug, Clone, PartialEq, Eq)]
pub struct IndexDiagnostic {
    pub package_id: u32,
    pub kind: String,
    pub code: String,
    pub message: String,
}

pub ghost struct DiagView {
    pub package_id: u32,
    pub kind: Seq<char>,
    pub code: Seq<char>,
    pub message: Seq<char>,
}

impl View for IndexDiagnostic {
    type V = DiagView;

    open spec fn view(&self) -> DiagView {
        DiagView {
            package_id: self.package_id,
            kind: self.kind@,
            code: self.code@,
            message: self.message@,
        }
    }
}

/// The texts of a list of strings.
pub open spec fn strings_view(v: Seq<String>) -> Seq<Seq<char>> {
    v.map_values(|s: String| s@)
}

/// Header of an index document.
#[derive(Debug, Clone)]
pub struct Header {
    pub schema: u32,
    pub guix_commit: String,
    pub generated_ms: String,
    pub package_count: u64,
    pub origin: GuixOrigin,
}

pub ghost struct HeaderView {
    pub schema: u32,
    pub guix_commit: Seq<char>,
    pub generated_ms: Seq<char>,
    pub package_count: u64,
    pub origin: OriginView,
}

impl View for Header {
    type V = HeaderView;

    open spec fn view(&self) -> HeaderView {
        HeaderView {
            schema: self.schema,
            guix_commit: self.guix_commit@,
            generated_ms: self.generated_ms@,
            package_count: self.package_count,
            origin: self.origin@,
        }
    }
}

/// One package as emitted by the Guile indexer; dependency lists hold ids.
#[derive(Debug)]
pub struct PkgJson {
    pub id: u32,
    pub name: String,
    /// True for an enumerated catalog entry, false for a closure-only variant.
    pub catalog: bool,
    pub version: String,
    pub synopsis: String,
    pub description: String,
    pub homepage: String,
    pub licenses: Vec<String>,
    /// Defining file and line; `("", 0)` when unknown.
    pub file: (String, u64),
    pub inputs: Vec<u32>,
    pub propagated_inputs: Vec<u32>,
    pub native_inputs: Vec<u32>,
}

pub ghost struct PkgJsonView {
    pub id: u32,
    pub name: Seq<char>,
    pub catalog: bool,
    pub version: Seq<char>,
    pub synopsis: Seq<char>,
    pub description: Seq<char>,
    pub homepage: Seq<char>,
    pub licenses: Seq<Seq<char>>,
    pub file: Seq<char>,
    pub line: u64,
    pub inputs: Seq<u32>,
    pub propagated_inputs: Seq<u32>,
    pub native_inputs: Seq<u32>,
}

impl View for PkgJson {
    type V = PkgJsonView;

    open spec fn view(&self) -> PkgJsonView {
        PkgJsonView {
            id: self.id,
            name: self.name@,
            catalog: self.catalog,
            version: self.version@,
            synopsis: self.synopsis@,
            description: self.description@,
            homepage: self.homepage@,
            licenses: strings_view(self.licenses@),
            file: self.file.0@,
            line: self.file.1,
            inputs: self.inputs@,
            propagated_inputs: self.propagated_inputs@,
            native_inputs: self.native_inputs@,
        }
    }
}

impl Clone for PkgJson {
    fn clone(&self) -> (r: Self) {
        PkgJson {
            id: self.id,
            name: self.name.clone(),
            catalog: self.catalog,
            version: self.version.clone(),
            synopsis: self.synopsis.clone(),
            description: self.description.clone(),
            homepage: self.homepage.clone(),
            licenses: self.licenses.clone(),
            file: (self.file.0.clone(), self.file.1),
            inputs: self.inputs.clone(),
            propagated_inputs: self.propagated_inputs.clone(),
            native_inputs: self.native_inputs.clone(),
        }
    }
}

/// A package missing the `catalog` field is an enumerated catalog entry.
pub fn catalog_default() -> (r: bool)
    ensures
        r,
{
    true
}

/// A whole index document.
#[derive(Debug, Clone)]
pub struct IndexDoc {
    pub header: Header,
    pub packages: Vec<PkgJson>,
    pub diagnostics: Vec<IndexDiagnostic>,
}

pub ghost struct DocView {
    pub header: HeaderView,
    pub packages: Seq<PkgJsonView>,
    pub diagnostics: Seq<DiagView>,
}

impl View for IndexDoc {
    type V = DocView;

    open spec fn view(&self) -> DocView {
        DocView {
            header: self.header@,
            packages: self.packages@.map_values(|p: PkgJson| p@),
            diagnostics: self.diagnostics@.map_values(|d: IndexDiagnostic| d@),
        }
    }
}

} // verus!
