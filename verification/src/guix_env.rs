//! What identifies a Guix installation: the channels `guix describe`
//! reports and the system type Guix runs for, each accepted only when it
//! is plainly well-formed. Running Guix happens outside.

use vstd::prelude::*;
use vstd::utf8::{decode_utf8, valid_utf8};

use crate::blob::utf8_text;
use crate::construct::{channel_order, insert_channel, lemma_channel_order, pins_view};
use crate::model::{origin_is_verified, ChannelPin, ChannelView, GuixOrigin, OriginView};
use crate::order::{sorted_list, strictly_sorted};
use crate::text::{chars_of, string_from_chars};
use crate::web::{trim, trim_chars};

verus! {

/// The most channels an installation may report.
pub const MAX_DESCRIBED_CHANNELS: usize = 4096;

/// A character of a channel name or commit.
pub open spec fn pin_char(c: char) -> bool {
    ('a' <= c && c <= 'z') || ('A' <= c && c <= 'Z') || ('0' <= c && c <= '9') || c == '-' || c
        == '_' || c == '.'
}

/// A channel name or commit: one to 128 plain characters.
pub open spec fn pin_text_ok(t: Seq<char>) -> bool {
    0 < t.len() <= 128 && forall|i: int| 0 <= i < t.len() ==> pin_char(#[trigger] t[i])
}

/// The channels can identify an installation: not too many, every name and
/// commit plain.
pub open spec fn channels_ok(cs: Seq<ChannelView>) -> bool {
    cs.len() <= MAX_DESCRIBED_CHANNELS && forall|i: int|
        0 <= i < cs.len() ==> pin_text_ok((#[trigger] cs[i]).0) && pin_text_ok(cs[i].1)
}

fn pin_text_exec(t: &str) -> (r: bool)
    ensures
        r == pin_text_ok(t@),
{
    let cs = chars_of(t);
    if cs.len() == 0 || cs.len() > 128 {
        return false;
    }
    let mut i: usize = 0;
    while i < cs.len()
        invariant
            cs@ == t@,
            i <= cs@.len(),
            forall|q: int| 0 <= q < i ==> pin_char(#[trigger] cs@[q]),
        decreases cs@.len() - i,
    {
        let c = cs[i];
        if !(('a' <= c && c <= 'z') || ('A' <= c && c <= 'Z') || ('0' <= c && c <= '9') || c == '-'
            || c == '_' || c == '.') {
            return false;
        }
        i += 1;
    }
    true
}

/// The channels `guix describe` reported, sorted and without repeats, when
/// they can identify the installation.
pub fn accept_channels(channels: Vec<ChannelPin>) -> (r: Option<Vec<ChannelPin>>)
    ensures
        match r {
            Some(v) => channels_ok(pins_view(channels@)) && pins_view(v@) == sorted_list(
                pins_view(channels@).to_set(),
                channel_order(),
            ),
            None => !channels_ok(pins_view(channels@)),
        },
{
    let ghost cv = pins_view(channels@);
    if channels.len() > MAX_DESCRIBED_CHANNELS {
        return None;
    }
    let mut i: usize = 0;
    while i < channels.len()
        invariant
            cv == pins_view(channels@),
            i <= channels@.len(),
            forall|q: int| 0 <= q < i ==> pin_text_ok((#[trigger] cv[q]).0) && pin_text_ok(cv[q].1),
        decreases channels@.len() - i,
    {
        let c = &channels[i];
        assert(cv[i as int] == c@);
        if !pin_text_exec(c.name.as_str()) || !pin_text_exec(c.commit.as_str()) {
            return None;
        }
        i += 1;
    }
    proof {
        lemma_channel_order();
    }
    let mut out: Vec<ChannelPin> = Vec::new();
    let mut k: usize = 0;
    while k < channels.len()
        invariant
            cv == pins_view(channels@),
            k <= channels@.len(),
            strictly_sorted(pins_view(out@), channel_order()),
            pins_view(out@).to_set() == cv.take(k as int).to_set(),
        decreases channels@.len() - k,
    {
        let c = &channels[k];
        let pin = ChannelPin { name: c.name.clone(), commit: c.commit.clone() };
        assert(pin@ == cv[k as int]);
        insert_channel(&mut out, pin);
        proof {
            assert(cv.take(k + 1) =~= cv.take(k as int).push(cv[k as int]));
            cv.take(k as int).lemma_push_to_set_commute(cv[k as int]);
        }
        k += 1;
    }
    proof {
        assert(cv.take(channels@.len() as int) =~= cv);
        crate::order::lemma_sorted_list_of(pins_view(out@), channel_order());
    }
    Some(out)
}

/// A character of a system type.
pub open spec fn system_char(c: char) -> bool {
    ('a' <= c && c <= 'z') || ('A' <= c && c <= 'Z') || ('0' <= c && c <= '9') || c == '-' || c
        == '_'
}

/// The system type a probe printed: its trimmed text, when that is one to
/// 128 plain characters.
pub open spec fn system_of(bytes: Seq<u8>) -> Option<Seq<char>> {
    if !valid_utf8(bytes) {
        None
    } else {
        let t = trim(decode_utf8(bytes));
        if 0 < t.len() <= 128 && forall|i: int| 0 <= i < t.len() ==> system_char(#[trigger] t[i]) {
            Some(t)
        } else {
            None
        }
    }
}

/// Read the system type from a probe's output.
pub fn system_text(bytes: &[u8]) -> (r: Option<String>)
    ensures
        match r {
            Some(s) => system_of(bytes@) == Some(s@),
            None => system_of(bytes@) is None,
        },
{
    let text = match utf8_text(bytes) {
        Some(t) => t,
        None => {
            return None;
        },
    };
    let cs = chars_of(text.as_str());
    let t = trim_chars(cs.as_slice());
    if t.len() == 0 || t.len() > 128 {
        return None;
    }
    assert(t@ == trim(decode_utf8(bytes@)));
    let mut i: usize = 0;
    while i < t.len()
        invariant
            valid_utf8(bytes@),
            t@ == trim(decode_utf8(bytes@)),
            0 < t@.len() <= 128,
            i <= t@.len(),
            forall|q: int| 0 <= q < i ==> system_char(#[trigger] t@[q]),
        decreases t@.len() - i,
    {
        let c = t[i];
        if !(('a' <= c && c <= 'z') || ('A' <= c && c <= 'Z') || ('0' <= c && c <= '9') || c == '-'
            || c == '_') {
            return None;
        }
        i += 1;
    }
    Some(string_from_chars(t.as_slice()))
}

/// The origin a probe establishes: what it found, and verified exactly
/// when that identifies the installation.
pub open spec fn probed_origin(
    executable: Seq<char>,
    mutable_path: bool,
    channels: Seq<ChannelView>,
    system: Seq<char>,
) -> OriginView {
    let o = OriginView { executable, system, channels, verified: true, mutable_package_path: mutable_path };
    OriginView { verified: origin_is_verified(o), ..o }
}

pub open spec fn opt_pins(channels: Option<Vec<ChannelPin>>) -> Seq<ChannelView> {
    match channels {
        Some(v) => pins_view(v@),
        None => Seq::empty(),
    }
}

pub open spec fn opt_text(t: Option<String>) -> Seq<char> {
    match t {
        Some(s) => s@,
        None => Seq::empty(),
    }
}

/// Put together the origin of a probe: the executable, whether a mutable
/// package path is set, and the channels and system type when the probes
/// gave acceptable ones.
pub fn finish_origin(
    executable: String,
    mutable_path: bool,
    channels: Option<Vec<ChannelPin>>,
    system: Option<String>,
) -> (r: GuixOrigin)
    ensures
        r@ == probed_origin(executable@, mutable_path, opt_pins(channels), opt_text(system)),
{
    let ghost want_channels = opt_pins(channels);
    let ghost want_system = opt_text(system);
    let chans = match channels {
        Some(v) => v,
        None => Vec::new(),
    };
    let sys = match system {
        Some(s) => s,
        None => String::new(),
    };
    assert(pins_view(chans@) =~= want_channels);
    assert(sys@ =~= want_system);
    let mut o = GuixOrigin {
        executable,
        system: sys,
        channels: chans,
        verified: true,
        mutable_package_path: mutable_path,
    };
    assert(o@.channels == pins_view(o.channels@));
    let v = o.is_verified();
    o.verified = v;
    o
}

} // verus!
