//! The alert store's operations, each a pure function from the file's
//! current bytes (and the operation's arguments) to a result and, for the
//! mutating ones, the file's next bytes. The caller owns the file I/O: it
//! reads the bytes, calls one operation, and writes back exactly what the
//! operation returned.

use vstd::prelude::*;
use crate::alert::Alert;
use crate::codec;
use crate::codec::spec_encode;

verus! {

/// The failures the store can report. I/O failures stay with the caller,
/// who owns the file handle.
#[derive(Debug)]
pub enum StoreError {
    /// The file's content is nonempty and is not an encoding of an alert
    /// sequence.
    ParseError,
    /// The disable target lies beyond the sequence; carries the offending
    /// index and the current count.
    InvalidIndex { index: usize, count: usize },
    /// The disable target is already disabled; carries the index.
    AlreadyDisabled { index: usize },
}

/// What a successful disable did.
pub enum DisableOutcome {
    /// The store holds no alerts; nothing was changed and nothing needs to
    /// be written.
    EmptyStore,
    /// The full re-encoded sequence to persist, and whether an alert was
    /// actually flipped (an index equal to the length matches no element
    /// and leaves the records as they were).
    Updated { data: Vec<u8>, changed: bool },
}

/// The sequence with element `i`'s enabled flag cleared.
pub open spec fn spec_disable(s: Seq<Alert>, i: int) -> Seq<Alert> {
    s.update(i, Alert { time: s[i].time, created_at: s[i].created_at, enabled: false })
}

/// Decode the file's bytes into the alert sequence. A zero-length file is
/// the empty sequence, never an error; a nonempty file must be a canonical
/// encoding, and decodes to exactly the sequence that was encoded.
pub fn read_all(bytes: &Vec<u8>) -> (r: Result<Vec<Alert>, StoreError>)
    ensures
        bytes@.len() == 0 ==> (r matches Ok(v) && v@ == Seq::<Alert>::empty()),
        r matches Ok(v) ==> (bytes@.len() == 0 || bytes@ == spec_encode(v@)),
        forall|s: Seq<Alert>| bytes@ == spec_encode(s) ==> (r matches Ok(v) && v@ == s),
        r matches Err(e) ==> (e is ParseError && bytes@.len() > 0 && !(exists|s: Seq<Alert>|
            bytes@ == spec_encode(s))),
        (bytes@.len() > 0 && !(exists|s: Seq<Alert>| bytes@ == spec_encode(s))) ==> (r
            matches Err(e) && e is ParseError),
{
    match codec::decode(bytes) {
        Some(v) => Ok(v),
        None => Err(StoreError::ParseError),
    }
}

/// Appending one alert lengthens the encoding: rewriting the file in place
/// from the start always overwrites all of the old content.
pub proof fn lemma_encode_grows(s: Seq<Alert>, a: Alert)
    ensures
        spec_encode(s.push(a)).len() > spec_encode(s).len(),
{
    codec::lemma_enc_items_snoc(s, a);
    assert(codec::spec_enc_alert(a).len() >= 1);
}

/// Append then list: the bytes `add_alert` returns for a store holding
/// `s` are an encoding of exactly `s.push(a)`, so a following
/// `list_alerts` (whose contract maps an encoding back to the encoded
/// sequence, and no other) reports one more alert than before, the last
/// one the alert that was appended and every earlier one unchanged.
pub proof fn lemma_append_then_list(s: Seq<Alert>, a: Alert)
    ensures
        forall|t: Seq<Alert>| spec_encode(s.push(a)) == #[trigger] spec_encode(t) ==> t == s.push(a),
        s.push(a).len() == s.len() + 1,
        s.push(a).last() == a,
        forall|i: int| 0 <= i < s.len() ==> s.push(a)[i] == s[i],
{
    assert forall|t: Seq<Alert>| spec_encode(s.push(a)) == #[trigger] spec_encode(t) implies t
        == s.push(a) by {
        codec::lemma_encode_unique(t, s.push(a));
    }
}

/// Append `alert` to the sequence the bytes hold and re-encode the whole
/// sequence. On a zero-length file the result holds exactly one alert.
/// The new bytes are always longer than the old ones.
pub fn add_alert(bytes: &Vec<u8>, alert: Alert) -> (r: Result<Vec<u8>, StoreError>)
    ensures
        bytes@.len() == 0 ==> (r matches Ok(out) && out@ == spec_encode(seq![alert])),
        forall|s: Seq<Alert>| bytes@ == spec_encode(s) ==> (r matches Ok(out) && out@
            == spec_encode(s.push(alert))),
        r matches Ok(out) ==> out@.len() > bytes@.len(),
        r matches Err(e) ==> (e is ParseError && bytes@.len() > 0 && !(exists|s: Seq<Alert>|
            bytes@ == spec_encode(s))),
        (bytes@.len() > 0 && !(exists|s: Seq<Alert>| bytes@ == spec_encode(s))) ==> (r
            matches Err(e) && e is ParseError),
{
    match read_all(bytes) {
        Err(e) => Err(e),
        Ok(mut v) => {
            let ghost s0: Seq<Alert> = v@;
            v.push(alert);
            let out = codec::encode(&v);
            proof {
                assert(v@ =~= s0.push(alert));
                lemma_encode_grows(s0, alert);
                if bytes@.len() == 0 {
                    assert(s0 =~= Seq::<Alert>::empty());
                    assert(s0.push(alert) =~= seq![alert]);
                    assert(spec_encode(s0.push(alert)).len() > 0);
                }
            }
            Ok(out)
        },
    }
}

/// The ordered alert sequence for display: each alert's position is its
/// index. The same reading discipline as `read_all`; the file is never
/// changed.
pub fn list_alerts(bytes: &Vec<u8>) -> (r: Result<Vec<Alert>, StoreError>)
    ensures
        bytes@.len() == 0 ==> (r matches Ok(v) && v@ == Seq::<Alert>::empty()),
        r matches Ok(v) ==> (bytes@.len() == 0 || bytes@ == spec_encode(v@)),
        forall|s: Seq<Alert>| bytes@ == spec_encode(s) ==> (r matches Ok(v) && v@ == s),
        r matches Err(e) ==> (e is ParseError && bytes@.len() > 0 && !(exists|s: Seq<Alert>|
            bytes@ == spec_encode(s))),
        (bytes@.len() > 0 && !(exists|s: Seq<Alert>| bytes@ == spec_encode(s))) ==> (r
            matches Err(e) && e is ParseError),
{
    read_all(bytes)
}

/// Disable the alert at `alert_id`. An empty store reports `EmptyStore`
/// and asks for no write. An index beyond the length fails with
/// `InvalidIndex`; an index equal to the length matches no element, so the
/// records come back unchanged with `changed == false`. An alert already
/// disabled fails with `AlreadyDisabled`. Otherwise exactly element
/// `alert_id`'s enabled flag is cleared, every other field and element
/// kept. Failures return no bytes, so the caller has nothing to write and
/// the file stays as it was.
pub fn disable_alert(bytes: &Vec<u8>, alert_id: usize) -> (r: Result<
    DisableOutcome,
    StoreError,
>)
    ensures
        bytes@.len() == 0 ==> (r matches Ok(o) && o is EmptyStore),
        forall|s: Seq<Alert>|
            bytes@ == spec_encode(s) && s.len() == 0 ==> (r matches Ok(o) && o is EmptyStore),
        forall|s: Seq<Alert>|
            bytes@ == spec_encode(s) && s.len() > 0 && alert_id > s.len() ==> r == Err::<
                DisableOutcome,
                StoreError,
            >(StoreError::InvalidIndex { index: alert_id, count: s.len() as usize }),
        forall|s: Seq<Alert>|
            bytes@ == spec_encode(s) && alert_id < s.len() && !s[alert_id as int].enabled ==> r
                == Err::<DisableOutcome, StoreError>(
                StoreError::AlreadyDisabled { index: alert_id },
            ),
        forall|s: Seq<Alert>|
            bytes@ == spec_encode(s) && alert_id < s.len() && s[alert_id as int].enabled ==> (r
                matches Ok(o) && o matches DisableOutcome::Updated { data, changed } && data@
                == spec_encode(spec_disable(s, alert_id as int)) && changed == true),
        forall|s: Seq<Alert>|
            bytes@ == spec_encode(s) && s.len() > 0 && alert_id == s.len() ==> (r matches Ok(o)
                && o matches DisableOutcome::Updated { data, changed } && data@ == spec_encode(s)
                && changed == false),
        r matches Err(e) && e is ParseError ==> (bytes@.len() > 0 && !(exists|s: Seq<Alert>|
            bytes@ == spec_encode(s))),
        (bytes@.len() > 0 && !(exists|s: Seq<Alert>| bytes@ == spec_encode(s))) ==> r
            == Err::<DisableOutcome, StoreError>(StoreError::ParseError),
{
    match read_all(bytes) {
        Err(e) => {
            proof {
                assert(e is ParseError);
            }
            Err(StoreError::ParseError)
        },
        Ok(mut v) => {
            if v.len() == 0 {
                proof {
                    assert(v@ =~= Seq::<Alert>::empty());
                }
                Ok(DisableOutcome::EmptyStore)
            } else if alert_id > v.len() {
                Err(StoreError::InvalidIndex { index: alert_id, count: v.len() })
            } else if alert_id < v.len() {
                if !v[alert_id].enabled {
                    Err(StoreError::AlreadyDisabled { index: alert_id })
                } else {
                    let ghost s0: Seq<Alert> = v@;
                    let na = Alert {
                        time: v[alert_id].time,
                        created_at: v[alert_id].created_at,
                        enabled: false,
                    };
                    v.set(alert_id, na);
                    let data = codec::encode(&v);
                    proof {
                        assert(v@ =~= spec_disable(s0, alert_id as int));
                    }
                    Ok(DisableOutcome::Updated { data, changed: true })
                }
            } else {
                let data = codec::encode(&v);
                Ok(DisableOutcome::Updated { data, changed: false })
            }
        },
    }
}

} // verus!
