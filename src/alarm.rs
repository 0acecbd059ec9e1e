//! Deciding from sensor readings when to raise an alarm call, and when to
//! stop repeating it.

use vstd::prelude::*;
use crate::config::{CmiConfig, IpAddress};

verus! {

#[verifier::external_type_specification]
#[verifier::external_body]
pub struct ExParseCOEError(coe::ParseCOEError);

/// One payload of a CoE datagram, as far as the alarm logic reads it: the
/// node, the PDO index as sent on the wire, and the value when it is a
/// digital on/off reading.
#[derive(Debug, Clone, Copy, PartialEq, Eq, Structural)]
pub struct Sample {
    pub node: u8,
    pub pdo_index: u8,
    pub on_off: Option<bool>,
}


/// The payloads that coe decodes from a datagram, or `None` where it
/// rejects the datagram.
pub uninterp spec fn coe_payloads(b: Seq<u8>) -> Option<Seq<(u8, u8, Option<bool>)>>;

/// The samples of a datagram that coe accepts.
pub open spec fn datagram_samples(b: Seq<u8>) -> Seq<Sample> {
    coe_payloads(b)->0.map_values(
        |t: (u8, u8, Option<bool>)| Sample { node: t.0, pdo_index: t.1, on_off: t.2 },
    )
}

/// Relies on coe's `TryFrom<&[u8]> for Packet`, and on `Payload::node`,
/// `Payload::pdo_index` and `Payload::value` for each payload. A datagram
/// shorter than its four header bytes is rejected.
#[verifier::external_body]
fn decode_datagram(buf: &[u8]) -> (r: Result<Vec<Sample>, coe::ParseCOEError>)
    ensures
        r is Ok <==> coe_payloads(buf@) is Some,
        r matches Ok(v) ==> v@ == datagram_samples(buf@),
        buf@.len() < 4 ==> r is Err,
{
    let packet = coe::Packet::try_from(buf)?;
    Ok(packet.into_iter().map(|p| Sample {
        node: p.node(),
        pdo_index: p.pdo_index(),
        on_off: match p.value() {
            coe::COEValue::Digital(coe::DigitalCOEValue::OnOff(x)) => Some(x),
            _ => None,
        },
    }).collect())
}

/// A digital reading is an alarm when it differs from the circuit's rest
/// state.
pub open spec fn reading_alarms(value: bool, normally_closed: bool) -> bool {
    value != normally_closed
}

/// Whether a digital reading is an alarm for a circuit of the given rest
/// polarity.
pub fn is_alarm(value: bool, normally_closed: bool) -> (r: bool)
    ensures
        r == reading_alarms(value, normally_closed),
{
    value != normally_closed
}

/// Flipping the rest polarity turns every alarm into a rest reading and
/// every rest reading into an alarm.
pub proof fn law_polarity_flips(value: bool, normally_closed: bool)
    ensures
        reading_alarms(value, normally_closed) == !reading_alarms(value, !normally_closed),
        reading_alarms(false, true),
        !reading_alarms(true, true),
{
}

/// The sample is sent to the watched node and PDO. The PDO index on the wire
/// is one lower than the configured one.
pub open spec fn is_watched(cmi: CmiConfig, s: Sample) -> bool {
    s.node == cmi.expect_index && s.pdo_index + 1 == cmi.expect_pdo
}

/// The first watched sample decides: it is an alarm when it is an on/off
/// reading that differs from the rest state. Without a watched sample there
/// is no alarm.
pub open spec fn samples_alarm_spec(cmi: CmiConfig, samples: Seq<Sample>) -> bool
    decreases samples.len(),
{
    if samples.len() == 0 {
        false
    } else if is_watched(cmi, samples[0]) {
        match samples[0].on_off {
            Some(x) => reading_alarms(x, cmi.circuit_is_normally_closed),
            None => false,
        }
    } else {
        samples_alarm_spec(cmi, samples.drop_first())
    }
}

/// Whether the decoded samples of a datagram call for an alarm.
pub fn samples_alarm(cmi: &CmiConfig, samples: &Vec<Sample>) -> (r: bool)
    ensures
        r == samples_alarm_spec(*cmi, samples@),
{
    let mut i: usize = 0;
    assert(samples@.subrange(0, samples@.len() as int) =~= samples@);
    while i < samples.len()
        invariant
            i <= samples@.len(),
            samples_alarm_spec(*cmi, samples@) == samples_alarm_spec(
                *cmi,
                samples@.subrange(i as int, samples@.len() as int),
            ),
        decreases samples@.len() - i,
    {
        let s = samples[i];
        proof {
            let tail = samples@.subrange(i as int, samples@.len() as int);
            assert(tail[0] == s);
            assert(tail.drop_first() =~= samples@.subrange(i + 1, samples@.len() as int));
        }
        if s.node == cmi.expect_index && s.pdo_index as u16 + 1 == cmi.expect_pdo as u16 {
            return match s.on_off {
                Some(x) => is_alarm(x, cmi.circuit_is_normally_closed),
                None => false,
            };
        }
        i = i + 1;
    }
    false
}

/// Whether a datagram received from `remote` calls for an alarm. Datagrams
/// from any other address than the watched one are ignored; those that coe
/// cannot decode give its error.
pub fn packet_is_alarm(cmi: &CmiConfig, buf: &[u8], remote: IpAddress) -> (r: Result<
    bool,
    coe::ParseCOEError,
>)
    ensures
        remote != cmi.expect_from_addr ==> r == Ok::<bool, coe::ParseCOEError>(false),
        remote == cmi.expect_from_addr ==> (r is Ok <==> coe_payloads(buf@) is Some),
        remote == cmi.expect_from_addr ==> (r matches Ok(a) ==> a == samples_alarm_spec(
            *cmi,
            datagram_samples(buf@),
        )),
{
    if remote != cmi.expect_from_addr {
        return Ok(false);
    }
    match decode_datagram(buf) {
        Ok(samples) => Ok(samples_alarm(cmi, &samples)),
        Err(e) => Err(e),
    }
}

/// Whether an alarm call may go out after `count` calls since the last rest
/// reading, when at most `max_repeats` repeats are allowed.
pub open spec fn issue_allowed(count: u32, max_repeats: Option<u32>) -> bool {
    match max_repeats {
        Some(m) => count <= m,
        None => true,
    }
}

pub fn should_issue(count: u32, max_repeats: Option<u32>) -> (r: bool)
    ensures
        r == issue_allowed(count, max_repeats),
{
    match max_repeats {
        Some(m) => count <= m,
        None => true,
    }
}

/// The repeat counter after a sample: a rest reading clears it, an alarm
/// call that went out adds one, a suppressed alarm leaves it.
pub open spec fn next_count(alarm: bool, issued: bool, count: u32) -> u32 {
    if !alarm {
        0
    } else if issued {
        if count == u32::MAX {
            count
        } else {
            (count + 1) as u32
        }
    } else {
        count
    }
}

pub fn record_outcome(alarm: bool, issued: bool, counter: &mut u32)
    ensures
        *final(counter) == next_count(alarm, issued, *old(counter)),
{
    if !alarm {
        *counter = 0;
    } else if issued {
        *counter = counter.saturating_add(1);
    }
}

/// The number of calls that go out for `n` alarm readings in a row, starting
/// from `count`, when each allowed call goes out.
pub open spec fn calls_for_alarms(count: u32, max_repeats: Option<u32>, n: nat) -> nat
    decreases n,
{
    if n == 0 {
        0
    } else {
        let issued = issue_allowed(count, max_repeats);
        (if issued {
            1nat
        } else {
            0nat
        }) + calls_for_alarms(next_count(true, issued, count), max_repeats, (n - 1) as nat)
    }
}

/// With a cap of `m` repeats, a run of `n` alarm readings after a rest
/// reading places `m + 1` calls at most: one for each of the first `m + 1`
/// readings.
pub proof fn law_repeat_cap(m: u32, n: nat)
    requires
        m < u32::MAX,
    ensures
        calls_for_alarms(0, Some(m), n) == if n <= m + 1 {
            n
        } else {
            (m + 1) as nat
        },
{
    lemma_calls_from(0, m, n);
}

proof fn lemma_calls_from(c: u32, m: u32, n: nat)
    requires
        m < u32::MAX,
        c <= m + 1,
    ensures
        calls_for_alarms(c, Some(m), n) == if n <= m + 1 - c {
            n
        } else {
            (m + 1 - c) as nat
        },
    decreases n,
{
    if n > 0 {
        if c <= m {
            lemma_calls_from((c + 1) as u32, m, (n - 1) as nat);
        } else {
            lemma_calls_from(c, m, (n - 1) as nat);
        }
    }
}

} // verus!
