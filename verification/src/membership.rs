//! The membership index: its manifest together with the contents of its runs.
use vstd::prelude::*;
use vstd::string::*;

use crate::index_format::{FORMAT_VERSION, Manifest, ManifestView, run_views, RunRecord};
use crate::keyed::lemma_multiset_contains;
use crate::ranked::{in_order, lemma_multiset_images, Ranked, sort_ranked};
use crate::runs::{OpenRun, run_models, RunModel};

verus! {

/// An open index: the manifest, its runs holding their contents.
#[derive(Debug, PartialEq, Eq)]
pub struct UuidMembershipIndex {
    /// Format version.
    pub format_version: u32,
    /// Generation of the base run.
    pub base_generation: u64,
    /// Topology generation the index describes.
    pub current_generation: u64,
    /// Live nodes over all runs.
    pub live_node_count: u64,
    /// Live edges over all runs.
    pub live_edge_count: u64,
    /// Runs, oldest first.
    pub runs: Vec<OpenRun>,
}

/// Model of a [`UuidMembershipIndex`].
#[verifier::ext_equal]
pub struct IndexModel {
    pub format_version: u32,
    pub base_generation: u64,
    pub current_generation: u64,
    pub live_node_count: u64,
    pub live_edge_count: u64,
    pub runs: Seq<RunModel>,
}

impl View for UuidMembershipIndex {
    type V = IndexModel;

    open spec fn view(&self) -> IndexModel {
        IndexModel {
            format_version: self.format_version,
            base_generation: self.base_generation,
            current_generation: self.current_generation,
            live_node_count: self.live_node_count,
            live_edge_count: self.live_edge_count,
            runs: run_models(self.runs@),
        }
    }
}

impl IndexModel {
    /// The manifest of the index.
    pub open spec fn manifest(self) -> ManifestView {
        ManifestView {
            format_version: self.format_version,
            base_generation: self.base_generation,
            current_generation: self.current_generation,
            live_node_count: self.live_node_count,
            live_edge_count: self.live_edge_count,
            runs: Seq::new(self.runs.len(), |i: int| self.runs[i].run),
        }
    }
}

/// Whether a manifest names a file.
pub open spec fn manifest_names(manifest: ManifestView, name: Seq<char>) -> bool {
    exists|i: int|
        0 <= i < manifest.runs.len() && ((#[trigger] manifest.runs[i]).identities.name == name
            || manifest.runs[i].node_surrogates.name == name)
}

impl UuidMembershipIndex {
    /// The index of an empty graph: no run yet.
    pub fn empty() -> (index: UuidMembershipIndex)
        ensures
            index@ == (IndexModel {
                format_version: FORMAT_VERSION,
                base_generation: 0,
                current_generation: 0,
                live_node_count: 0,
                live_edge_count: 0,
                runs: Seq::empty(),
            }),
    {
        let index = UuidMembershipIndex {
            format_version: FORMAT_VERSION,
            base_generation: 0,
            current_generation: 0,
            live_node_count: 0,
            live_edge_count: 0,
            runs: Vec::new(),
        };
        assert(index@.runs =~= Seq::<RunModel>::empty());
        index
    }

    /// The manifest of the index.
    pub fn manifest(&self) -> (manifest: Manifest)
        ensures
            manifest@ == self@.manifest(),
    {
        let mut runs: Vec<RunRecord> = Vec::new();
        let mut i: usize = 0;
        while i < self.runs.len()
            invariant
                i <= self.runs@.len(),
                runs@.len() == i,
                forall|j: int| 0 <= j < i ==> (#[trigger] runs@[j])@ == self.runs@[j]@.run,
            decreases self.runs.len() - i,
        {
            runs.push(self.runs[i].descriptor.duplicate());
            i = i + 1;
        }
        assert(run_views(runs@) =~= self@.manifest().runs);
        Manifest {
            format_version: self.format_version,
            base_generation: self.base_generation,
            current_generation: self.current_generation,
            live_node_count: self.live_node_count,
            live_edge_count: self.live_edge_count,
            runs,
        }
    }
}

/// Whether a manifest names a file.
pub fn manifest_holds(manifest: &Manifest, name: &String) -> (yes: bool)
    ensures
        yes == manifest_names(manifest@, name@),
{
    let mut i: usize = 0;
    while i < manifest.runs.len()
        invariant
            i <= manifest.runs@.len(),
            forall|j: int|
                0 <= j < i ==> (#[trigger] manifest@.runs[j]).identities.name != name@
                    && manifest@.runs[j].node_surrogates.name != name@,
        decreases manifest.runs.len() - i,
    {
        assert(manifest@.runs[i as int] == manifest.runs@[i as int]@);
        if manifest.runs[i].identities.name == *name || manifest.runs[i].node_surrogates.name
            == *name {
            return true;
        }
        i = i + 1;
    }
    false
}

impl Ranked for OpenRun {
    open spec fn not_after(self, other: Self) -> bool {
        self@.run.first_generation <= other@.run.first_generation
    }

    proof fn total(left: Self, right: Self) {
    }

    proof fn transitive(first: Self, second: Self, third: Self) {
    }

    fn comes_first(&self, other: &Self) -> (yes: bool) {
        self.descriptor.first_generation <= other.descriptor.first_generation
    }
}

/// Whether a name is in a list.
pub open spec fn has_name(names: Seq<String>, name: Seq<char>) -> bool {
    exists|i: int| 0 <= i < names.len() && (#[trigger] names[i])@ == name
}

/// Whether no name repeats in a list.
pub open spec fn distinct_names(names: Seq<String>) -> bool {
    forall|i: int, j: int|
        0 <= i < j < names.len() ==> (#[trigger] names[i])@ != (#[trigger] names[j])@
}

/// Whether a list is ordered and distinct, with every name among others that
/// are ordered and distinct: what a filter keeps.
pub open spec fn kept_names(kept: Seq<String>, names: Seq<String>) -> bool {
    &&& in_order(kept)
    &&& distinct_names(kept)
    &&& forall|i: int| 0 <= i < kept.len() ==> names.contains(#[trigger] kept[i])
}

/// A filter that goes through an ordered, distinct list keeps it so.
pub proof fn lemma_keep_name(
    kept: Seq<String>,
    next: Seq<String>,
    names: Seq<String>,
    i: int,
    keep: bool,
)
    requires
        0 <= i < names.len(),
        in_order(names),
        distinct_names(names),
        kept_names(kept, names.take(i)),
        keep ==> next == kept.push(names[i]),
        !keep ==> next == kept,
    ensures
        kept_names(next, names.take(i + 1)),
        forall|name: Seq<char>| #[trigger]
            has_name(names.take(i + 1), name) <==> has_name(names.take(i), name) || name
                == names[i]@,
        !has_name(names.take(i), names[i]@),
        forall|name: Seq<char>| #[trigger]
            has_name(next, name) <==> has_name(kept, name) || (keep && name == names[i]@),
{
    let before = names.take(i);
    let after = names.take(i + 1);
    assert(after =~= before.push(names[i]));
    assert forall|k: int| 0 <= k < kept.len() implies (#[trigger] kept[k]).not_after(names[i])
        && kept[k]@ != names[i]@ by {
        let m = choose|m: int| 0 <= m < before.len() && before[m] == kept[k];
        assert(names[m].not_after(names[i]));
        assert(names[m]@ != names[i]@);
    }
    assert forall|k: int| 0 <= k < next.len() implies after.contains(#[trigger] next[k]) by {
        if k < kept.len() {
            let m = choose|m: int| 0 <= m < before.len() && before[m] == kept[k];
            assert(after[m] == kept[k]);
        } else {
            assert(after[i] == names[i]);
        }
    }
    assert forall|name: Seq<char>| #[trigger] has_name(after, name) <==> has_name(before, name)
        || name == names[i]@ by {
        lemma_push_name(before, names[i], name);
    }
    if has_name(before, names[i]@) {
        let m = choose|m: int| 0 <= m < before.len() && (#[trigger] before[m])@ == names[i]@;
        assert(names[m]@ != names[i]@);
    }
    assert forall|name: Seq<char>| #[trigger] has_name(next, name) <==> has_name(kept, name) || (
    keep && name == names[i]@) by {
        lemma_push_name(kept, names[i], name);
    }
}

pub(crate) proof fn lemma_push_name(names: Seq<String>, last: String, name: Seq<char>)
    ensures
        has_name(names.push(last), name) <==> has_name(names, name) || name == last@,
{
    let all = names.push(last);
    if has_name(all, name) {
        let i = choose|i: int| 0 <= i < all.len() && (#[trigger] all[i])@ == name;
        if i < names.len() {
            assert(names[i]@ == name);
        }
    }
    if has_name(names, name) {
        let i = choose|i: int| 0 <= i < names.len() && (#[trigger] names[i])@ == name;
        assert(all[i]@ == name);
    }
    if name == last@ {
        assert(all[names.len() as int]@ == name);
    }
}

pub(crate) fn add_name(names: &mut Vec<String>, name: &String)
    requires
        distinct_names(old(names)@),
    ensures
        distinct_names(final(names)@),
        forall|other: Seq<char>| #[trigger]
            has_name(final(names)@, other) <==> has_name(old(names)@, other) || other == name@,
{
    let ghost before = names@;
    let mut i: usize = 0;
    while i < names.len()
        invariant
            i <= names@.len(),
            names@ == before,
            before == old(names)@,
            distinct_names(before),
            forall|j: int| 0 <= j < i ==> (#[trigger] names@[j])@ != name@,
        decreases names.len() - i,
    {
        if names[i] == *name {
            assert(has_name(before, name@));
            return ;
        }
        i = i + 1;
    }
    names.push(name.clone());
    assert forall|other: Seq<char>| #[trigger]
        has_name(names@, other) <==> has_name(before, other) || other == name@ by {
        lemma_push_name(before, names@[before.len() as int], other);
    }
}

pub(crate) proof fn lemma_sorted_names(sorted: Seq<String>, unsorted: Seq<String>)
    requires
        sorted.to_multiset() == unsorted.to_multiset(),
        distinct_names(unsorted),
    ensures
        distinct_names(sorted),
        forall|name: Seq<char>| #[trigger] has_name(sorted, name) <==> has_name(unsorted, name),
{
    let image = |name: String| name@;
    lemma_multiset_images(sorted, unsorted, image);
    let a = Seq::new(sorted.len(), |i: int| image(sorted[i]));
    let b = Seq::new(unsorted.len(), |i: int| image(unsorted[i]));
    assert(b.no_duplicates()) by {
        assert forall|i: int, j: int| 0 <= i < b.len() && 0 <= j < b.len() && i != j implies b[i]
            != b[j] by {
            if i < j {
                assert(unsorted[i]@ != unsorted[j]@);
            } else {
                assert(unsorted[j]@ != unsorted[i]@);
            }
        }
    }
    b.lemma_multiset_has_no_duplicates();
    assert(forall|x: Seq<char>| a.to_multiset().contains(x) ==> a.to_multiset().count(x) == 1);
    a.lemma_multiset_has_no_duplicates_conv();
    assert forall|i: int, j: int| 0 <= i < j < sorted.len() implies (#[trigger] sorted[i])@ != (
    #[trigger] sorted[j])@ by {
        assert(a[i] != a[j]);
    }
    lemma_multiset_contains(a, b);
    assert forall|name: Seq<char>| #[trigger] has_name(sorted, name) <==> has_name(
        unsorted,
        name,
    ) by {
        if has_name(sorted, name) {
            let i = choose|i: int| 0 <= i < sorted.len() && (#[trigger] sorted[i])@ == name;
            assert(a[i] == name);
            assert(a.contains(name));
            let j = choose|j: int| 0 <= j < b.len() && b[j] == name;
            assert(unsorted[j]@ == name);
        }
        if has_name(unsorted, name) {
            let i = choose|i: int| 0 <= i < unsorted.len() && (#[trigger] unsorted[i])@ == name;
            assert(b[i] == name);
            assert(b.contains(name));
            let j = choose|j: int| 0 <= j < a.len() && a[j] == name;
            assert(sorted[j]@ == name);
        }
    }
}

/// The names of the files of a manifest, each once, in order.
pub fn manifest_file_names(manifest: &Manifest) -> (names: Vec<String>)
    ensures
        in_order(names@),
        distinct_names(names@),
        forall|name: Seq<char>| #[trigger]
            has_name(names@, name) <==> manifest_names(manifest@, name),
{
    let ghost views = manifest@.runs;
    let mut names: Vec<String> = Vec::new();
    let mut i: usize = 0;
    while i < manifest.runs.len()
        invariant
            i <= manifest.runs@.len(),
            views == manifest@.runs,
            distinct_names(names@),
            forall|name: Seq<char>| #[trigger]
                has_name(names@, name) <==> exists|k: int|
                    0 <= k < i && ((#[trigger] views[k]).identities.name == name
                        || views[k].node_surrogates.name == name),
        decreases manifest.runs.len() - i,
    {
        assert(views[i as int] == manifest.runs@[i as int]@);
        let ghost before = names@;
        add_name(&mut names, &manifest.runs[i].identities.name);
        add_name(&mut names, &manifest.runs[i].node_surrogates.name);
        assert forall|name: Seq<char>| #[trigger]
            has_name(names@, name) <==> exists|k: int|
                0 <= k < i + 1 && ((#[trigger] views[k]).identities.name == name
                    || views[k].node_surrogates.name == name) by {
            if has_name(before, name) {
                let k = choose|k: int|
                    0 <= k < i && ((#[trigger] views[k]).identities.name == name
                        || views[k].node_surrogates.name == name);
                assert(views[k].identities.name == name || views[k].node_surrogates.name == name);
            }
            if name == views[i as int].identities.name || name
                == views[i as int].node_surrogates.name {
                assert(views[i as int].identities.name == name
                    || views[i as int].node_surrogates.name == name);
            }
        }
        i = i + 1;
    }
    let ghost unsorted = names@;
    let names: Vec<String> = sort_ranked(names);
    proof {
        lemma_sorted_names(names@, unsorted);
    }
    names
}

/// The names that a manifest does not hold.
pub fn names_not_in(names: Vec<String>, manifest: &Manifest) -> (left: Vec<String>)
    requires
        in_order(names@),
        distinct_names(names@),
    ensures
        in_order(left@),
        distinct_names(left@),
        forall|name: Seq<char>| #[trigger]
            has_name(left@, name) <==> has_name(names@, name) && !manifest_names(manifest@, name),
{
    let mut left: Vec<String> = Vec::new();
    let mut i: usize = 0;
    while i < names.len()
        invariant
            i <= names@.len(),
            in_order(names@),
            distinct_names(names@),
            kept_names(left@, names@.take(i as int)),
            forall|name: Seq<char>| #[trigger]
                has_name(left@, name) <==> has_name(names@.take(i as int), name)
                    && !manifest_names(manifest@, name),
        decreases names.len() - i,
    {
        let ghost before = left@;
        let held: bool = manifest_holds(manifest, &names[i]);
        if !held {
            left.push(names[i].clone());
        }
        proof {
            lemma_keep_name(before, left@, names@, i as int, !held);
        }
        i = i + 1;
    }
    assert(names@.take(i as int) =~= names@);
    left
}

} // verus!
