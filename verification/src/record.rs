//! One published version's metadata, and the step that turns a structurally
//! decoded line of the index into a checked record: the version text and
//! every dependency requirement must parse under the semantic-versioning
//! grammar.
use vstd::prelude::*;

verus! {

use crate::version::{Version, VersionView};
use crate::verparse::{semver_parse, req_parse_ok};

/// One declared dependency of a version record.
#[derive(Debug)]
pub struct Dep {
    pub name: Vec<u8>,
    pub req: String,
    pub features: Vec<Vec<u8>>,
    pub optional: bool,
    pub default_features: bool,
    pub target: Option<Vec<u8>>,
    pub kind: Option<Vec<u8>>,
}

/// A record as it comes out of the structural decoder: the version still
/// plain text, the requirements unchecked.
#[derive(Debug)]
pub struct RawRecord {
    pub name: Vec<u8>,
    pub vers: String,
    pub deps: Vec<Dep>,
    pub cksum: Vec<u8>,
    pub features: Vec<(Vec<u8>, Vec<Vec<u8>>)>,
    pub yanked: bool,
}

/// A fully checked version record.
#[derive(Debug)]
pub struct CrateVersion {
    pub name: Vec<u8>,
    pub vers: Version,
    pub deps: Vec<Dep>,
    pub cksum: Vec<u8>,
    pub features: Vec<(Vec<u8>, Vec<Vec<u8>>)>,
    pub yanked: bool,
}

/// The dependency kind that establishes a graph edge, as it is written in
/// the index: `normal`, or no kind at all.
pub open spec fn kind_normal() -> Seq<u8> {
    seq![110u8, 111u8, 114u8, 109u8, 97u8, 108u8]
}

pub open spec fn dep_is_normal(d: Dep) -> bool {
    match d.kind {
        Option::None => true,
        Option::Some(k) => k@ == kind_normal(),
    }
}

fn normal_kind() -> (r: Vec<u8>)
    ensures
        r@ == kind_normal(),
{
    let mut v: Vec<u8> = Vec::new();
    v.push(110);
    v.push(111);
    v.push(114);
    v.push(109);
    v.push(97);
    v.push(108);
    proof {
        assert(v@ =~= kind_normal());
    }
    v
}

pub fn dep_is_normal_exec(d: &Dep) -> (r: bool)
    ensures
        r == dep_is_normal(*d),
{
    match &d.kind {
        Option::None => true,
        Option::Some(k) => crate::bytes::bytes_eq(k, &normal_kind()),
    }
}

/// Every requirement text of the record's dependencies is a valid range
/// expression.
pub open spec fn deps_reqs_ok(deps: Seq<Dep>) -> bool {
    forall|i: int| 0 <= i < deps.len() ==> req_parse_ok(#[trigger] deps[i].req@)
}

/// The record passes the parser: its version text is a semantic version and
/// all its requirements parse.
pub open spec fn record_parses(raw: RawRecord) -> bool {
    semver_parse(raw.vers@) is Some && deps_reqs_ok(raw.deps@)
}

/// `v` is exactly the parse of the record's version text.
pub open spec fn parsed_version_of(raw: RawRecord, v: VersionView) -> bool {
    semver_parse(raw.vers@) == Some::<(u64, u64, u64, Seq<u8>, Seq<u8>)>(
        (v.major, v.minor, v.patch, v.pre, v.build),
    )
}

#[derive(Debug, PartialEq, Eq, Structural)]
pub enum ParseIssue {
    InvalidVersion,
    InvalidRequirement { index: usize },
}

/// Check one raw record: parse its version text and validate every
/// dependency requirement; everything else is carried over unchanged.
pub fn parse_record(raw: RawRecord) -> (r: Result<CrateVersion, ParseIssue>)
    ensures
        r is Ok <==> record_parses(raw),
        match r {
            Result::Ok(c) => parsed_version_of(raw, c.vers@) && c.name@ == raw.name@ && c.deps
                == raw.deps && c.cksum@ == raw.cksum@ && c.features == raw.features && c.yanked
                == raw.yanked,
            Result::Err(e) => match e {
                ParseIssue::InvalidVersion => semver_parse(raw.vers@) is None,
                ParseIssue::InvalidRequirement { index } => semver_parse(raw.vers@) is Some
                    && index < raw.deps@.len() && !req_parse_ok(raw.deps@[index as int].req@),
            },
        },
{
    let vers: Version = match crate::verparse::parse_version(raw.vers.as_str()) {
        Option::Some(v) => v,
        Option::None => {
            return Result::Err(ParseIssue::InvalidVersion);
        },
    };
    let mut i: usize = 0;
    while i < raw.deps.len()
        invariant
            0 <= i <= raw.deps.len(),
            parsed_version_of(raw, vers@),
            forall|k: int| 0 <= k < i ==> req_parse_ok(#[trigger] raw.deps@[k].req@),
        decreases raw.deps.len() - i,
    {
        if !crate::verparse::version_req_ok(raw.deps[i].req.as_str()) {
            return Result::Err(ParseIssue::InvalidRequirement { index: i });
        }
        i = i + 1;
    }
    Result::Ok(CrateVersion {
        name: raw.name,
        vers,
        deps: raw.deps,
        cksum: raw.cksum,
        features: raw.features,
        yanked: raw.yanked,
    })
}

} // verus!
