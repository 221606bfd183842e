//! The symlink reconciler: group real-file descriptors by declared name,
//! select the canonical (highest-version) file of each group with the
//! digit-run-aware comparator, and plan the `declared-name -> file-name`
//! development links. Planning is pure; reading and mutating the
//! filesystem is the caller's part, reported back as observations.

use vstd::prelude::*;
use vstd::string::StrSliceExecFns;
use vstd::string::StringExecFns;
use core::cmp::Ordering;
use crate::elf::{ElfLibrary, Provenance};
use crate::pathname::{file_name, file_name_chars, join_chars, join_path, parent_dir,
    parent_dir_chars, str_eq};
use crate::versions::{compare_library_versions, spec_version_cmp};

verus! {

/// What the reconciler decides for one link.
#[derive(Debug, Clone, Copy, PartialEq, Eq, Structural)]
pub enum SymlinkActionType {
    Create,
    Update,
    Skip,
}

/// One planned filesystem change: make `link` point at `target`.
#[derive(Debug, Clone)]
pub struct SymlinkAction {
    pub target: String,
    pub link: String,
    pub action: SymlinkActionType,
}

/// A link the reconciler requires: in `directory`, a link named after the
/// declared name (`link` is its full path) pointing at the sibling file
/// `target_name`.
#[derive(Debug, Clone)]
pub struct SymlinkProposal {
    pub directory: String,
    pub link: String,
    pub target_name: String,
}

/// What the filesystem reports about a proposed link path.
#[derive(Debug, Clone)]
pub enum LinkState {
    /// No object exists at the link path.
    Absent,
    /// An object exists and resolves to this canonical target.
    ResolvesTo(String),
}

/// The filesystem's answer for one proposal: the state of the link path,
/// and the canonicalized form of the intended target.
#[derive(Debug, Clone)]
pub struct LinkObservation {
    pub state: LinkState,
    pub target_canonical: String,
}

/// The model of a proposal.
pub ghost struct ProposalModel {
    pub dir: Seq<char>,
    pub link: Seq<char>,
    pub target: Seq<char>,
}

/// The model of an action.
pub ghost struct ActionModel {
    pub target: Seq<char>,
    pub link: Seq<char>,
    pub action: SymlinkActionType,
}

/// A descriptor taken from a regular file rather than a symlink.
pub open spec fn is_real(l: ElfLibrary) -> bool {
    l.provenance == Provenance::RealFile
}

/// The real-file descriptors of `libs` whose declared name is `s`, in
/// order.
pub open spec fn filter_group(libs: Seq<ElfLibrary>, s: Seq<char>) -> Seq<ElfLibrary>
    decreases libs.len(),
{
    if libs.len() == 0 {
        Seq::empty()
    } else {
        let d = filter_group(libs.drop_last(), s);
        if is_real(libs.last()) && libs.last().soname@ == s {
            d.push(libs.last())
        } else {
            d
        }
    }
}

/// Whether some name of `s` equals `n`.
pub open spec fn contains_name(s: Seq<Seq<char>>, n: Seq<char>) -> bool {
    exists|i: int| 0 <= i < s.len() && s[i] == n
}

/// The declared names of the real-file descriptors, each once, in order
/// of first appearance.
pub open spec fn distinct_real_sonames(libs: Seq<ElfLibrary>) -> Seq<Seq<char>>
    decreases libs.len(),
{
    if libs.len() == 0 {
        Seq::empty()
    } else {
        let d = distinct_real_sonames(libs.drop_last());
        if is_real(libs.last()) && !contains_name(d, libs.last().soname@) {
            d.push(libs.last().soname@)
        } else {
            d
        }
    }
}

/// The index of the canonical member of `g[0..i]`: the member whose file
/// name ranks highest under the version comparator, the later of equals.
pub open spec fn best_idx(g: Seq<ElfLibrary>, i: int) -> int
    decreases i,
{
    if i <= 1 {
        0
    } else {
        let b = best_idx(g, i - 1);
        if spec_version_cmp(file_name_chars(g[i - 1].path@), file_name_chars(g[b].path@))
            != Ordering::Less {
            i - 1
        } else {
            b
        }
    }
}

/// The index of the canonical member of a group.
pub open spec fn spec_best(g: Seq<ElfLibrary>) -> int {
    best_idx(g, g.len() as int)
}

pub proof fn lemma_best_idx_bounds(g: Seq<ElfLibrary>, i: int)
    requires
        1 <= i,
    ensures
        0 <= best_idx(g, i) < i,
    decreases i,
{
    if i > 1 {
        lemma_best_idx_bounds(g, i - 1);
    }
}

/// The link the reconciler requires for declared name `s`, if any: none
/// when no real file declares `s`, none when the canonical file already
/// sits under its declared name, else a link beside the canonical file.
pub open spec fn spec_proposal_for(libs: Seq<ElfLibrary>, s: Seq<char>) -> Option<ProposalModel> {
    let g = filter_group(libs, s);
    if g.len() == 0 {
        None
    } else {
        let b = g[spec_best(g)];
        let f = file_name_chars(b.path@);
        if f == s {
            None
        } else {
            let d = parent_dir_chars(b.path@);
            Some(ProposalModel { dir: d, link: join_chars(d, s), target: f })
        }
    }
}

/// The proposals for the given declared names, in order.
pub open spec fn spec_proposals_from(libs: Seq<ElfLibrary>, names: Seq<Seq<char>>) -> Seq<
    ProposalModel,
>
    decreases names.len(),
{
    if names.len() == 0 {
        Seq::empty()
    } else {
        let prev = spec_proposals_from(libs, names.drop_last());
        match spec_proposal_for(libs, names.last()) {
            Some(p) => prev.push(p),
            None => prev,
        }
    }
}

/// Every link the reconciler requires for the descriptor list.
pub open spec fn spec_proposals(libs: Seq<ElfLibrary>) -> Seq<ProposalModel> {
    spec_proposals_from(libs, distinct_real_sonames(libs))
}

/// What one observation decides: create a missing link, update one that
/// resolves elsewhere, and leave alone one that already resolves to the
/// intended target.
pub open spec fn spec_decide(state: LinkState, target_canonical: Seq<char>) -> SymlinkActionType {
    match state {
        LinkState::Absent => SymlinkActionType::Create,
        LinkState::ResolvesTo(c) => if c@ == target_canonical {
            SymlinkActionType::Skip
        } else {
            SymlinkActionType::Update
        },
    }
}

/// The actions that remain once each proposal is held against its
/// observation: only `Create` and `Update` are returned, a settled link
/// yields nothing.
pub open spec fn spec_actions(props: Seq<ProposalModel>, obs: Seq<LinkObservation>) -> Seq<
    ActionModel,
>
    recommends
        props.len() == obs.len(),
    decreases props.len(),
{
    if props.len() == 0 {
        Seq::empty()
    } else {
        let prev = spec_actions(props.drop_last(), obs.drop_last());
        let d = spec_decide(obs.last().state, obs.last().target_canonical@);
        if d == SymlinkActionType::Skip {
            prev
        } else {
            prev.push(
                ActionModel { target: props.last().target, link: props.last().link, action: d },
            )
        }
    }
}

/// The canonical member of a non-empty group: the one whose file name is
/// maximal under the version comparator, the later of equals — no other
/// member's file name ranks above it.
pub fn find_highest_version_library(libs: &Vec<ElfLibrary>) -> (r: usize)
    requires
        libs@.len() > 0,
    ensures
        0 <= r < libs@.len(),
        r == spec_best(libs@),
        forall|t: int|
            0 <= t < libs@.len() ==> spec_version_cmp(
                file_name_chars(#[trigger] libs@[t].path@),
                file_name_chars(libs@[r as int].path@),
            ) != Ordering::Greater,
{
    let mut best: usize = 0;
    let mut i: usize = 1;
    proof {
        lemma_best_idx_bounds(libs@, libs@.len() as int);
        let n0 = file_name_chars(libs@[0].path@);
        crate::versions::lemma_version_cmp_refl(n0, 0);
    }
    while i < libs.len()
        invariant
            1 <= i <= libs@.len(),
            0 <= best < i,
            best == best_idx(libs@, i as int),
            forall|t: int|
                0 <= t < i ==> spec_version_cmp(
                    file_name_chars(#[trigger] libs@[t].path@),
                    file_name_chars(libs@[best as int].path@),
                ) != Ordering::Greater,
        decreases libs@.len() - i,
    {
        let fi = file_name(libs[i].path.as_str());
        let fb = file_name(libs[best].path.as_str());
        let c = compare_library_versions(fi, fb);
        proof {
            let ni = file_name_chars(libs@[i as int].path@);
            let nb = file_name_chars(libs@[best as int].path@);
            if c != Ordering::Less {
                // The old best ranks at or below the new one; so, by
                // transitivity, does everything before it.
                crate::versions::lemma_version_cmp_flip(ni, nb, 0, 0);
                assert(spec_version_cmp(nb, ni) != Ordering::Greater);
                assert forall|t: int| 0 <= t < i implies spec_version_cmp(
                    file_name_chars(#[trigger] libs@[t].path@),
                    ni,
                ) != Ordering::Greater by {
                    let nt = file_name_chars(libs@[t].path@);
                    crate::versions::lemma_version_cmp_le_trans(nt, nb, ni, 0, 0, 0);
                }
                crate::versions::lemma_version_cmp_refl(ni, 0);
            }
        }
        match c {
            Ordering::Less => {},
            _ => {
                best = i;
            },
        }
        i = i + 1;
    }
    best
}

/// Plan the links the descriptor list requires: group the real files by
/// declared name in order of first appearance, select each group's
/// canonical member, and propose a link wherever the canonical file does
/// not already sit under its declared name.
pub fn plan_symlinks(libraries: &Vec<ElfLibrary>) -> (r: Vec<SymlinkProposal>)
    ensures
        r@.len() == spec_proposals(libraries@).len(),
        forall|i: int|
            0 <= i < r@.len() ==> {
                let p = #[trigger] r@[i];
                let m = spec_proposals(libraries@)[i];
                p.directory@ == m.dir && p.link@ == m.link && p.target_name@ == m.target
            },
{
    // The declared names of the real files, first appearance first.
    let mut sonames: Vec<String> = Vec::new();
    let mut i: usize = 0;
    while i < libraries.len()
        invariant
            0 <= i <= libraries@.len(),
            sonames@.map_values(|s: String| s@) == distinct_real_sonames(
                libraries@.take(i as int),
            ),
        decreases libraries@.len() - i,
    {
        let ghost names = sonames@.map_values(|s: String| s@);
        let li = &libraries[i];
        let from_file = match li.provenance {
            Provenance::RealFile => true,
            Provenance::Symlink => false,
        };
        if from_file {
            let mut seen = false;
            let mut j: usize = 0;
            while j < sonames.len()
                invariant
                    0 <= j <= sonames@.len(),
                    i < libraries@.len(),
                    names == sonames@.map_values(|s: String| s@),
                    seen == exists|t: int|
                        0 <= t < j && (#[trigger] sonames@[t])@ == libraries@[i as int].soname@,
                decreases sonames@.len() - j,
            {
                if str_eq(sonames[j].as_str(), libraries[i].soname.as_str()) {
                    seen = true;
                }
                j = j + 1;
            }
            proof {
                let k = libraries@[i as int].soname@;
                if seen {
                    let t = choose|t: int|
                        0 <= t < sonames@.len() && (#[trigger] sonames@[t])@ == k;
                    assert(names[t] == k);
                    assert(contains_name(names, k));
                } else {
                    if contains_name(names, k) {
                        let t = choose|t: int| 0 <= t < names.len() && (#[trigger] names[t]) == k;
                        assert((sonames@[t])@ == k);
                    }
                }
                assert(seen == contains_name(names, k));
            }
            if !seen {
                sonames.push(libraries[i].soname.clone());
                proof {
                    assert(sonames@.map_values(|s: String| s@) =~= names.push(
                        libraries@[i as int].soname@,
                    ));
                }
            }
        }
        proof {
            assert(libraries@.take(i + 1).drop_last() =~= libraries@.take(i as int));
            assert(libraries@.take(i + 1).last() == libraries@[i as int]);
        }
        i = i + 1;
    }
    proof {
        assert(libraries@.take(libraries@.len() as int) =~= libraries@);
    }
    let ghost names = sonames@.map_values(|s: String| s@);

    // One proposal per declared name whose canonical file is named
    // otherwise.
    let mut props: Vec<SymlinkProposal> = Vec::new();
    let ghost pm = spec_proposals_from(libraries@, names);
    let mut k: usize = 0;
    while k < sonames.len()
        invariant
            0 <= k <= sonames@.len(),
            names == sonames@.map_values(|s: String| s@),
            pm == spec_proposals_from(libraries@, names),
            props@.len() == spec_proposals_from(libraries@, names.take(k as int)).len(),
            forall|t: int|
                0 <= t < props@.len() ==> {
                    let p = #[trigger] props@[t];
                    let m = spec_proposals_from(libraries@, names.take(k as int))[t];
                    p.directory@ == m.dir && p.link@ == m.link && p.target_name@ == m.target
                },
        decreases sonames@.len() - k,
    {
        let s = &sonames[k];
        let ghost sv = names[k as int];
        // Collect the group of real files declaring this name.
        let mut g: Vec<ElfLibrary> = Vec::new();
        let mut i2: usize = 0;
        while i2 < libraries.len()
            invariant
                0 <= i2 <= libraries@.len(),
                sv == s@,
                g@ == filter_group(libraries@.take(i2 as int), sv),
            decreases libraries@.len() - i2,
        {
            let li = &libraries[i2];
            let from_file = match li.provenance {
                Provenance::RealFile => true,
                Provenance::Symlink => false,
            };
            if from_file && str_eq(li.soname.as_str(), s.as_str()) {
                g.push(li.duplicate());
            }
            proof {
                assert(libraries@.take(i2 + 1).drop_last() =~= libraries@.take(i2 as int));
                assert(libraries@.take(i2 + 1).last() == libraries@[i2 as int]);
            }
            i2 = i2 + 1;
        }
        proof {
            assert(libraries@.take(libraries@.len() as int) =~= libraries@);
        }
        if g.len() > 0 {
            let b = find_highest_version_library(&g);
            let bl = &g[b];
            let f = file_name(bl.path.as_str());
            if !str_eq(f, s.as_str()) {
                let d = parent_dir(bl.path.as_str());
                let link = join_path(d, s.as_str());
                props.push(
                    SymlinkProposal {
                        directory: String::from_str(d),
                        link,
                        target_name: String::from_str(f),
                    },
                );
            }
        }
        proof {
            assert(names.take(k + 1).drop_last() =~= names.take(k as int));
            assert(names.take(k + 1).last() == names[k as int]);
        }
        k = k + 1;
    }
    proof {
        assert(names.take(sonames@.len() as int) =~= names);
    }
    props
}

/// Whether a link must be (re)created: yes when nothing exists at the
/// link path, or when what exists resolves to a different canonical
/// target than the intended one.
pub fn should_create_symlink(
    link_exists: bool,
    current_target_canonical: Option<&String>,
    target_canonical: &String,
) -> (r: bool)
    ensures
        r == (!link_exists || match current_target_canonical {
            None => true,
            Some(c) => c@ != target_canonical@,
        }),
{
    if !link_exists {
        return true;
    }
    match current_target_canonical {
        None => true,
        Some(c) => !str_eq(c.as_str(), target_canonical.as_str()),
    }
}

/// Hold each proposal against what the filesystem reports and keep the
/// links that must be created or redirected; settled links yield nothing.
pub fn decide_symlink_actions(proposals: &Vec<SymlinkProposal>, observations: &Vec<
    LinkObservation,
>) -> (r: Vec<SymlinkAction>)
    requires
        proposals@.len() == observations@.len(),
    ensures
        r@.len() == spec_actions(proposals_model(proposals@), observations@).len(),
        forall|i: int|
            0 <= i < r@.len() ==> {
                let a = #[trigger] r@[i];
                let m = spec_actions(proposals_model(proposals@), observations@)[i];
                a.target@ == m.target && a.link@ == m.link && a.action == m.action
            },
{
    let mut out: Vec<SymlinkAction> = Vec::new();
    let ghost pm = proposals_model(proposals@);
    let mut i: usize = 0;
    while i < proposals.len()
        invariant
            0 <= i <= proposals@.len(),
            proposals@.len() == observations@.len(),
            pm == proposals_model(proposals@),
            out@.len() == spec_actions(pm.take(i as int), observations@.take(i as int)).len(),
            forall|t: int|
                0 <= t < out@.len() ==> {
                    let a = #[trigger] out@[t];
                    let m = spec_actions(pm.take(i as int), observations@.take(i as int))[t];
                    a.target@ == m.target && a.link@ == m.link && a.action == m.action
                },
        decreases proposals@.len() - i,
    {
        let ob = &observations[i];
        let act = match &ob.state {
            LinkState::Absent => SymlinkActionType::Create,
            LinkState::ResolvesTo(c) => {
                if str_eq(c.as_str(), ob.target_canonical.as_str()) {
                    SymlinkActionType::Skip
                } else {
                    SymlinkActionType::Update
                }
            },
        };
        proof {
            assert(act == spec_decide(
                observations@[i as int].state,
                observations@[i as int].target_canonical@,
            ));
            assert(pm.take(i + 1).drop_last() =~= pm.take(i as int));
            assert(observations@.take(i + 1).drop_last() =~= observations@.take(i as int));
            assert(pm.take(i + 1).last() == pm[i as int]);
            assert(observations@.take(i + 1).last() == observations@[i as int]);
        }
        match act {
            SymlinkActionType::Skip => {},
            _ => {
                let p = &proposals[i];
                out.push(
                    SymlinkAction {
                        target: p.target_name.clone(),
                        link: p.link.clone(),
                        action: act,
                    },
                );
            },
        }
        i = i + 1;
    }
    proof {
        assert(pm.take(proposals@.len() as int) =~= pm);
        assert(observations@.take(observations@.len() as int) =~= observations@);
    }
    out
}

/// End-to-end rebuild of a single versioned library, over the pure
/// pipeline — everything but the filesystem steps, which only carry
/// values between these functions. One real file stands in a directory,
/// declaring a name that differs from its file name; `link_desc` is the
/// descriptor of the link the reconciler will have created beside it.
/// Then: the planner proposes exactly one link, the declared name beside
/// the file, pointing at the file's name; a link absent on disk decides
/// `Create`; assembling the entries from the real file and the created
/// link keeps exactly the link, since the real file does not sit under
/// its declared name; and the built image parses to exactly one entry,
/// keyed by the declared name, whose path is the link's path — in
/// particular, no entry for any other name exists.
pub proof fn lemma_single_library_rebuild(
    lib: ElfLibrary,
    link_desc: ElfLibrary,
    ob: LinkObservation,
)
    requires
        is_real(lib),
        file_name_chars(lib.path@) != lib.soname@,
        lib.soname@.len() > 0,
        forall|t: int| 0 <= t < lib.soname@.len() ==> lib.soname@[t] != '/',
        link_desc.path@ == join_chars(parent_dir_chars(lib.path@), lib.soname@),
        link_desc.soname@ == lib.soname@,
        link_desc.provenance == Provenance::Symlink,
        ob.state is Absent,
        crate::codec::nul_free(crate::codec::lib_model(link_desc, None).name),
        crate::codec::nul_free(crate::codec::lib_model(link_desc, None).path),
        crate::codec::build_fits(crate::codec::lib_models(seq![link_desc], None)),
    ensures
        ({
            let props = spec_proposals(seq![lib]);
            let assembled = crate::scanner::dedup_libs_spec(
                crate::scanner::filter_reals(seq![lib]) + crate::scanner::filter_links(
                    Seq::<(ElfLibrary, Option<String>)>::empty(),
                ) + seq![link_desc],
            );
            let data = crate::codec::spec_build(crate::codec::lib_models(assembled, None));
            let m = crate::codec::spec_parse(data);
            &&& props.len() == 1
            &&& props[0].dir == parent_dir_chars(lib.path@)
            &&& props[0].link == link_desc.path@
            &&& props[0].target == file_name_chars(lib.path@)
            &&& spec_actions(props, seq![ob]).len() == 1
            &&& spec_actions(props, seq![ob])[0].action == SymlinkActionType::Create
            &&& spec_actions(props, seq![ob])[0].link == link_desc.path@
            &&& assembled == seq![link_desc]
            &&& m is Ok
            &&& m->Ok_0.entries.len() == 1
            &&& crate::codec::string_at(data, m->Ok_0.entries[0].key_offset as int)
                == vstd::utf8::encode_utf8(lib.soname@)
            &&& crate::codec::string_at(data, m->Ok_0.entries[0].value_offset as int)
                == vstd::utf8::encode_utf8(link_desc.path@)
        }),
{
    let libs1 = seq![lib];
    assert(libs1.drop_last() =~= Seq::<ElfLibrary>::empty());
    assert(libs1.last() == lib);

    // One declared name, one group, one proposal.
    assert(distinct_real_sonames(Seq::<ElfLibrary>::empty()) =~= Seq::<Seq<char>>::empty());
    let names = distinct_real_sonames(libs1);
    assert(names =~= seq![lib.soname@]);
    assert(filter_group(Seq::<ElfLibrary>::empty(), lib.soname@) =~= Seq::<ElfLibrary>::empty());
    let g = filter_group(libs1, lib.soname@);
    assert(g =~= seq![lib]);
    assert(spec_best(g) == 0);
    let prop = ProposalModel {
        dir: parent_dir_chars(lib.path@),
        link: join_chars(parent_dir_chars(lib.path@), lib.soname@),
        target: file_name_chars(lib.path@),
    };
    assert(spec_proposal_for(libs1, lib.soname@) == Some(prop));
    assert(names.drop_last() =~= Seq::<Seq<char>>::empty());
    assert(spec_proposals_from(libs1, Seq::<Seq<char>>::empty()) =~= Seq::<ProposalModel>::empty());
    let props = spec_proposals(libs1);
    assert(names.last() == lib.soname@);
    assert(props =~= seq![prop]);

    // The absent link decides Create.
    let obs1 = seq![ob];
    assert(props.drop_last() =~= Seq::<ProposalModel>::empty());
    assert(obs1.drop_last() =~= Seq::<LinkObservation>::empty());
    assert(spec_actions(Seq::<ProposalModel>::empty(), Seq::<LinkObservation>::empty())
        =~= Seq::<ActionModel>::empty());
    assert(spec_decide(ob.state, ob.target_canonical@) == SymlinkActionType::Create);
    assert(spec_actions(props, obs1).len() == 1);

    // Assembly: the real file earns no entry, the link is kept.
    assert(!crate::scanner::keep_real(lib));
    assert(crate::scanner::filter_reals(Seq::<ElfLibrary>::empty())
        =~= Seq::<ElfLibrary>::empty());
    assert(crate::scanner::filter_reals(libs1) =~= Seq::<ElfLibrary>::empty());
    assert(crate::scanner::filter_links(Seq::<(ElfLibrary, Option<String>)>::empty())
        =~= Seq::<ElfLibrary>::empty());
    let comb = crate::scanner::filter_reals(libs1) + crate::scanner::filter_links(
        Seq::<(ElfLibrary, Option<String>)>::empty(),
    ) + seq![link_desc];
    assert(comb =~= seq![link_desc]);
    assert(comb.drop_last() =~= Seq::<ElfLibrary>::empty());
    assert(crate::scanner::dedup_libs_spec(Seq::<ElfLibrary>::empty())
        =~= Seq::<ElfLibrary>::empty());
    let assembled = crate::scanner::dedup_libs_spec(comb);
    assert(comb.last() == link_desc);
    assert(assembled =~= seq![link_desc]);

    // The built image holds exactly the link's entry, keyed by its file
    // name — the declared name.
    let md = crate::codec::lib_model(link_desc, None);
    let models = crate::codec::lib_models(assembled, None);
    assert(models =~= seq![md]);
    assert(crate::codec::lib_models(seq![link_desc], None) =~= seq![md]);
    assert forall|i: int| 0 <= i < models.len() implies crate::codec::nul_free(
        #[trigger] models[i].name,
    ) && crate::codec::nul_free(models[i].path) by {
        assert(models[i] == md);
    }
    crate::codec::lemma_build_parse_round_trip(models);
    let sorted = crate::codec::sort_libs(models);
    assert(models.drop_last() =~= Seq::<crate::codec::LibModel>::empty());
    assert(crate::codec::sort_libs(Seq::<crate::codec::LibModel>::empty())
        =~= Seq::<crate::codec::LibModel>::empty());
    assert(models.last() == md);
    assert(sorted =~= seq![md]);
    assert(sorted[0] == md);
    crate::codec::lemma_file_name_bytes_encode(link_desc.path@);
    crate::pathname::lemma_file_name_join(parent_dir_chars(lib.path@), lib.soname@);
    assert(file_name_chars(link_desc.path@) == lib.soname@);
    assert(md.name == vstd::utf8::encode_utf8(lib.soname@));
    assert(md.path == vstd::utf8::encode_utf8(link_desc.path@));
}

/// An observation that reports the link already resolving to its
/// intended target.
pub open spec fn link_settled(ob: LinkObservation) -> bool {
    match ob.state {
        LinkState::ResolvesTo(c) => c@ == ob.target_canonical@,
        LinkState::Absent => false,
    }
}

/// The models of a proposal list.
pub open spec fn proposals_model(ps: Seq<SymlinkProposal>) -> Seq<ProposalModel> {
    ps.map_values(
        |p: SymlinkProposal| ProposalModel { dir: p.directory@, link: p.link@, target: p.target_name@ },
    )
}

/// Symlink idempotence: the proposals are a function of the descriptor
/// list alone, so once every proposed link resolves to its intended
/// target — as it does right after the planned actions were applied — a
/// second reconciliation over the unchanged descriptors plans no action
/// at all.
pub proof fn lemma_reconcile_idempotent(props: Seq<ProposalModel>, obs: Seq<LinkObservation>)
    requires
        obs.len() == props.len(),
        forall|i: int| 0 <= i < obs.len() ==> link_settled(#[trigger] obs[i]),
    ensures
        spec_actions(props, obs).len() == 0,
    decreases props.len(),
{
    if props.len() > 0 {
        assert(obs.last() == obs[obs.len() - 1]);
        assert(spec_decide(obs.last().state, obs.last().target_canonical@)
            == SymlinkActionType::Skip);
        assert(link_settled(obs.last()));
        assert forall|i: int| 0 <= i < obs.drop_last().len() implies link_settled(
            #[trigger] obs.drop_last()[i],
        ) by {
            assert(obs.drop_last()[i] == obs[i]);
        }
        lemma_reconcile_idempotent(props.drop_last(), obs.drop_last());
    }
}

} // verus!
