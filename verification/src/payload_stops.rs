//! Where reading the payload of a pinned index stops: the surrogates of every
//! run are read first, then the identities of all runs side by side in UUID
//! order, and what is met first is what is reported.
use vstd::prelude::*;
use vstd::string::*;

use crate::construction_sources::{read_source, source, SourceFault, SourceModel};
use crate::error::{GfError, storage_err};
use crate::identity_codec::Identity;
use crate::index_format::{run_views, RunRecord, RunView};
use crate::records::NodeSurrogate;
use crate::snapshot::{find_first, first_at, NamedFile};

verus! {

/// What is reported of a faulty file.
pub open spec fn payload_fault_text(fault: SourceFault) -> Seq<char> {
    match fault {
        SourceFault::Framing => "construction UUID block framing changed"@,
        SourceFault::Short => "failed to fill whole buffer"@,
        SourceFault::Block => "construction UUID block digest changed"@,
        SourceFault::Whole => "construction UUID run authentication failed"@,
    }
}

fn payload_fault(fault: SourceFault) -> (error: GfError)
    ensures
        error.is_storage(payload_fault_text(fault)),
{
    match fault {
        SourceFault::Framing => storage_err("construction UUID block framing changed"),
        SourceFault::Short => storage_err("failed to fill whole buffer"),
        SourceFault::Block => storage_err("construction UUID block digest changed"),
        SourceFault::Whole => storage_err("construction UUID run authentication failed"),
    }
}

/// The contents of a file; nothing where it is not there.
pub open spec fn content_of(files: Seq<NamedFile>, name: Seq<char>) -> Seq<u8> {
    match first_at(files, name) {
        Some(i) => files[i].file.bytes@,
        None => Seq::empty(),
    }
}

fn find_content<'a>(files: &'a Vec<NamedFile>, name: &str, nothing: &'a Vec<u8>) -> (content:
    &'a Vec<u8>)
    requires
        nothing@.len() == 0,
    ensures
        content@ == content_of(files@, name@),
{
    match find_first(files, name) {
        Some(i) => &files[i].file.bytes,
        None => {
            assert(nothing@ =~= Seq::<u8>::empty());
            nothing
        },
    }
}

/// What the identities of some runs give.
pub open spec fn identity_sources(files: Seq<NamedFile>, runs: Seq<RunView>) -> Seq<
    SourceModel<Identity>,
> {
    Seq::new(
        runs.len(),
        |i: int|
            source::<Identity>(content_of(files, runs[i].identities.name), runs[i].identities),
    )
}

/// The first fault among the surrogates of some runs.
pub open spec fn surrogate_fault(files: Seq<NamedFile>, runs: Seq<RunView>) -> Option<SourceFault>
    decreases runs.len(),
{
    if runs.len() == 0 {
        None
    } else {
        match surrogate_fault(files, runs.drop_last()) {
            Some(fault) => Some(fault),
            None => source::<NodeSurrogate>(
                content_of(files, runs.last().node_surrogates.name),
                runs.last().node_surrogates,
            ).fault,
        }
    }
}

/// The first fault among the first `n` sources that give nothing at all.
pub open spec fn opening_fault(sources: Seq<SourceModel<Identity>>, n: int) -> Option<SourceFault>
    decreases n,
{
    if n <= 0 {
        None
    } else {
        match opening_fault(sources, n - 1) {
            Some(fault) => Some(fault),
            None => if sources[n - 1].records.len() == 0 {
                sources[n - 1].fault
            } else {
                None
            },
        }
    }
}

/// The record a source gives next.
pub open spec fn next_record(
    sources: Seq<SourceModel<Identity>>,
    at: Seq<nat>,
    i: int,
) -> Option<Identity> {
    if at[i] < sources[i].records.len() {
        Some(sources[i].records[at[i] as int])
    } else {
        None
    }
}

/// Whether a source gives a record of this UUID next.
pub open spec fn gives(
    sources: Seq<SourceModel<Identity>>,
    at: Seq<nat>,
    i: int,
    uuid: u128,
) -> bool {
    next_record(sources, at, i) matches Some(record) && record.uuid == uuid
}

/// The least UUID that the first `n` sources give next.
pub open spec fn least_uuid(sources: Seq<SourceModel<Identity>>, at: Seq<nat>, n: int) -> Option<
    u128,
>
    decreases n,
{
    if n <= 0 {
        None
    } else {
        match (next_record(sources, at, n - 1), least_uuid(sources, at, n - 1)) {
            (None, before) => before,
            (Some(record), None) => Some(record.uuid),
            (Some(record), Some(before)) => if record.uuid < before {
                Some(record.uuid)
            } else {
                Some(before)
            },
        }
    }
}

/// The record of the newest of the first `n` sources that give one of this UUID.
pub open spec fn newest_given(
    sources: Seq<SourceModel<Identity>>,
    at: Seq<nat>,
    uuid: u128,
    n: int,
) -> Option<Identity>
    decreases n,
{
    if n <= 0 {
        None
    } else if gives(sources, at, n - 1, uuid) {
        next_record(sources, at, n - 1)
    } else {
        newest_given(sources, at, uuid, n - 1)
    }
}

/// The places after every record of a UUID is taken.
pub open spec fn taken(sources: Seq<SourceModel<Identity>>, at: Seq<nat>, uuid: u128) -> Seq<nat> {
    Seq::new(
        at.len(),
        |i: int|
            if gives(sources, at, i, uuid) {
                at[i] + 1
            } else {
                at[i]
            },
    )
}

/// The first fault among the first `n` sources whose last record is the one of
/// this UUID.
pub open spec fn ended(
    sources: Seq<SourceModel<Identity>>,
    at: Seq<nat>,
    uuid: u128,
    n: int,
) -> Option<SourceFault>
    decreases n,
{
    if n <= 0 {
        None
    } else {
        match ended(sources, at, uuid, n - 1) {
            Some(fault) => Some(fault),
            None => if gives(sources, at, n - 1, uuid) && at[n - 1] + 1
                == sources[n - 1].records.len() {
                sources[n - 1].fault
            } else {
                None
            },
        }
    }
}

/// How many records the first `n` sources still give.
pub open spec fn unread(sources: Seq<SourceModel<Identity>>, at: Seq<nat>, n: int) -> nat
    decreases n,
{
    if n <= 0 {
        0
    } else {
        unread(sources, at, n - 1) + if at[n - 1] < sources[n - 1].records.len() {
            (sources[n - 1].records.len() - at[n - 1]) as nat
        } else {
            0
        }
    }
}

/// Taking the records of the least UUID leaves fewer to be read.
pub proof fn lemma_unread(sources: Seq<SourceModel<Identity>>, at: Seq<nat>, uuid: u128, n: int)
    requires
        n <= at.len(),
    ensures
        unread(sources, taken(sources, at, uuid), n) <= unread(sources, at, n),
        least_uuid(sources, at, n) == Some(uuid) ==> unread(
            sources,
            taken(sources, at, uuid),
            n,
        ) < unread(sources, at, n),
    decreases n,
{
    if n > 0 {
        lemma_unread(sources, at, uuid, n - 1);
    }
}

/// What stops the reading of identities that has come to these places, if
/// anything.
pub open spec fn identities_stop(sources: Seq<SourceModel<Identity>>, at: Seq<nat>) -> Option<
    Seq<char>,
>
    decreases unread(sources, at, sources.len() as int),
{
    let count = sources.len() as int;
    let uuid = least_uuid(sources, at, count);
    if uuid is None || at.len() != count {
        None
    } else {
        let newest = newest_given(sources, at, uuid->0, count);
        let fault = ended(sources, at, uuid->0, count);
        if newest is Some && newest->0.kind == 0 && newest->0.surrogate == 0 {
            Some("live node has zero surrogate"@)
        } else if fault is Some {
            Some(payload_fault_text(fault->0))
        } else {
            proof {
                lemma_unread(sources, at, uuid->0, count);
            }
            identities_stop(sources, taken(sources, at, uuid->0))
        }
    }
}

/// What is reported of a payload that is not what its descriptors say.
pub open spec fn payload_stop(files: Seq<NamedFile>, runs: Seq<RunView>) -> Seq<char> {
    let sources = identity_sources(files, runs);
    let count = sources.len() as int;
    if surrogate_fault(files, runs) is Some {
        payload_fault_text(surrogate_fault(files, runs)->0)
    } else if opening_fault(sources, count) is Some {
        payload_fault_text(opening_fault(sources, count)->0)
    } else {
        match identities_stop(sources, Seq::new(sources.len(), |i: int| 0nat)) {
            Some(text) => text,
            None => "construction UUID run authentication failed"@,
        }
    }
}

proof fn lemma_surrogate_fault(files: Seq<NamedFile>, runs: Seq<RunView>, n: int)
    requires
        0 <= n <= runs.len(),
        surrogate_fault(files, runs.take(n)) is Some,
    ensures
        surrogate_fault(files, runs) == surrogate_fault(files, runs.take(n)),
    decreases runs.len(),
{
    if n < runs.len() {
        assert(runs.drop_last().take(n) =~= runs.take(n));
        lemma_surrogate_fault(files, runs.drop_last(), n);
    } else {
        assert(runs.take(n) =~= runs);
    }
}

fn find_surrogate_fault(files: &Vec<NamedFile>, runs: &Vec<RunRecord>) -> (fault: Option<
    SourceFault,
>)
    ensures
        fault == surrogate_fault(files@, run_views(runs@)),
{
    let ghost all = run_views(runs@);
    let nothing: Vec<u8> = Vec::new();
    let mut i: usize = 0;
    assert(all.take(0) =~= Seq::<RunView>::empty());
    while i < runs.len()
        invariant
            i <= runs@.len(),
            nothing@.len() == 0,
            all == run_views(runs@),
            surrogate_fault(files@, all.take(i as int)) is None,
        decreases runs.len() - i,
    {
        assert(all.take(i + 1).drop_last() =~= all.take(i as int));
        assert(all[i as int] == runs@[i as int]@);
        let content: &Vec<u8> = find_content(
            files,
            runs[i].node_surrogates.name.as_str(),
            &nothing,
        );
        let read: (Vec<NodeSurrogate>, Option<SourceFault>) = read_source::<NodeSurrogate>(
            content.as_slice(),
            &runs[i].node_surrogates,
        );
        i = i + 1;
        if read.1.is_some() {
            proof {
                lemma_surrogate_fault(files@, all, i as int);
            }
            return read.1;
        }
    }
    assert(all.take(i as int) =~= all);
    None
}

/// The places in a list of counters.
spec fn places(at: Seq<usize>) -> Seq<nat> {
    Seq::new(at.len(), |i: int| at[i] as nat)
}

/// The sources of lists of records.
spec fn source_views(
    records: Seq<Vec<Identity>>,
    faults: Seq<Option<SourceFault>>,
) -> Seq<SourceModel<Identity>> {
    Seq::new(records.len(), |i: int| SourceModel { records: records[i]@, fault: faults[i] })
}

/// What is met of one UUID: the newest record, and what ends with it.
struct Met {
    newest: Option<Identity>,
    fault: Option<SourceFault>,
}

fn find_least(records: &Vec<Vec<Identity>>, at: &Vec<usize>, Ghost(faults): Ghost<
    Seq<Option<SourceFault>>,
>) -> (least: Option<u128>)
    requires
        records@.len() == at@.len(),
    ensures
        least == least_uuid(
            source_views(records@, faults),
            places(at@),
            records@.len() as int,
        ),
{
    let ghost sources = source_views(records@, faults);
    let mut least: Option<u128> = None;
    let mut i: usize = 0;
    while i < records.len()
        invariant
            i <= records@.len(),
            records@.len() == at@.len(),
            sources == source_views(records@, faults),
            least == least_uuid(sources, places(at@), i as int),
        decreases records.len() - i,
    {
        if at[i] < records[i].len() {
            let uuid: u128 = records[i][at[i]].uuid;
            let nearer: bool = match least {
                Some(before) => uuid < before,
                None => true,
            };
            if nearer {
                least = Some(uuid);
            }
        }
        i = i + 1;
    }
    least
}

/// Take every record of a UUID.
fn take_uuid(
    records: &Vec<Vec<Identity>>,
    faults: &Vec<Option<SourceFault>>,
    at: &mut Vec<usize>,
    uuid: u128,
) -> (met: Met)
    requires
        records@.len() == faults@.len() == old(at)@.len(),
    ensures
        ({
            let sources = source_views(records@, faults@);
            let before = places(old(at)@);
            &&& places(final(at)@) == taken(sources, before, uuid)
            &&& met.newest == newest_given(sources, before, uuid, sources.len() as int)
            &&& met.fault == ended(sources, before, uuid, sources.len() as int)
        }),
{
    let ghost sources = source_views(records@, faults@);
    let ghost start = at@;
    let ghost before = places(at@);
    let mut newest: Option<Identity> = None;
    let mut fault: Option<SourceFault> = None;
    let mut i: usize = 0;
    while i < records.len()
        invariant
            i <= records@.len(),
            records@.len() == faults@.len() == at@.len(),
            at@.len() == start.len(),
            start == old(at)@,
            before == places(start),
            sources == source_views(records@, faults@),
            forall|k: int|
                0 <= k < i ==> #[trigger] at@[k] as nat == taken(sources, before, uuid)[k],
            forall|k: int| i <= k < at@.len() ==> #[trigger] at@[k] == start[k],
            newest == newest_given(sources, before, uuid, i as int),
            fault == ended(sources, before, uuid, i as int),
        decreases records.len() - i,
    {
        assert(at@[i as int] == start[i as int]);
        let place: usize = at[i];
        assert(records@[i as int].len() <= usize::MAX);
        if place < records[i].len() && records[i][place].uuid == uuid {
            assert(gives(sources, before, i as int, uuid));
            newest = Some(records[i][place]);
            if fault.is_none() && place + 1 == records[i].len() {
                fault = faults[i];
            }
            at.set(i, place + 1);
        }
        i = i + 1;
    }
    assert(places(at@) =~= taken(sources, before, uuid));
    Met { newest, fault }
}

/// Say what is to be reported of a payload that is not what its descriptors say.
pub(crate) fn explain_payload(files: &Vec<NamedFile>, runs: &Vec<RunRecord>) -> (error: GfError)
    ensures
        error.is_storage(payload_stop(files@, run_views(runs@))),
{
    let ghost all = run_views(runs@);
    match find_surrogate_fault(files, runs) {
        Some(fault) => {
            return payload_fault(fault);
        },
        None => {},
    }
    let nothing: Vec<u8> = Vec::new();
    let mut records: Vec<Vec<Identity>> = Vec::new();
    let mut faults: Vec<Option<SourceFault>> = Vec::new();
    let mut at: Vec<usize> = Vec::new();
    let mut opening: Option<SourceFault> = None;
    let ghost sources = identity_sources(files@, all);
    let mut i: usize = 0;
    while i < runs.len()
        invariant
            i <= runs@.len(),
            nothing@.len() == 0,
            all == run_views(runs@),
            sources == identity_sources(files@, all),
            records@.len() == i,
            faults@.len() == i,
            at@.len() == i,
            forall|k: int| 0 <= k < i ==> #[trigger] at@[k] == 0,
            forall|k: int|
                0 <= k < i ==> (SourceModel { records: (#[trigger] records@[k])@, fault: faults@[k] })
                    == sources[k],
            opening == opening_fault(sources, i as int),
        decreases runs.len() - i,
    {
        assert(all[i as int] == runs@[i as int]@);
        let content: &Vec<u8> = find_content(files, runs[i].identities.name.as_str(), &nothing);
        let read: (Vec<Identity>, Option<SourceFault>) = read_source::<Identity>(
            content.as_slice(),
            &runs[i].identities,
        );
        assert(sources[i as int] == (SourceModel { records: read.0@, fault: read.1 }));
        if opening.is_none() && read.0.len() == 0 {
            opening = read.1;
        }
        records.push(read.0);
        faults.push(read.1);
        at.push(0);
        i = i + 1;
    }
    match opening {
        Some(fault) => {
            return payload_fault(fault);
        },
        None => {},
    }
    let ghost stop = payload_stop(files@, all);
    proof {
        assert(source_views(records@, faults@) =~= sources);
        assert(places(at@) =~= Seq::new(sources.len(), |i: int| 0nat));
    }
    loop
        invariant
            records@.len() == faults@.len() == at@.len(),
            sources == source_views(records@, faults@),
            stop == payload_stop(files@, run_views(runs@)),
            stop == match identities_stop(sources, places(at@)) {
                Some(text) => text,
                None => "construction UUID run authentication failed"@,
            },
        decreases unread(sources, places(at@), sources.len() as int),
    {
        let ghost before = places(at@);
        let uuid: u128 = match find_least(&records, &at, Ghost(faults@)) {
            Some(uuid) => uuid,
            None => {
                return storage_err("construction UUID run authentication failed");
            },
        };
        proof {
            lemma_unread(sources, before, uuid, sources.len() as int);
        }
        let met: Met = take_uuid(&records, &faults, &mut at, uuid);
        match met.newest {
            Some(record) => {
                if record.kind == 0 && record.surrogate == 0 {
                    return storage_err("live node has zero surrogate");
                }
            },
            None => {},
        }
        match met.fault {
            Some(fault) => {
                return payload_fault(fault);
            },
            None => {},
        }
    }
}

} // verus!
