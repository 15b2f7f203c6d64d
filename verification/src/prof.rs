//! Opt-in stage timing: an aggregate breakdown of where the background pipeline spends its
//! time. Off by default.

use vstd::prelude::*;

verus! {

/// A stage of the background pipeline.
#[derive(Clone, Copy, PartialEq, Eq, Structural, Debug)]
pub enum Stage {
    Decode,
    Detect,
    Embed,
    Preview,
}

/// The samples of one stage.
#[derive(Clone, Copy, PartialEq, Eq, Structural, Debug)]
pub struct Samples {
    pub count: u64,
    pub nanos: u64,
}

/// The samples of every stage.
#[derive(Clone, Copy, PartialEq, Eq, Structural, Debug)]
pub struct Profile {
    pub on: bool,
    pub decode: Samples,
    pub detect: Samples,
    pub embed: Samples,
    pub preview: Samples,
}

impl Profile {
    /// The samples of a stage.
    pub open spec fn of(self, stage: Stage) -> Samples {
        match stage {
            Stage::Decode => self.decode,
            Stage::Detect => self.detect,
            Stage::Embed => self.embed,
            Stage::Preview => self.preview,
        }
    }

    /// The samples of a stage.
    pub fn samples(&self, stage: Stage) -> (s: Samples)
        ensures
            s == self.of(stage),
    {
        match stage {
            Stage::Decode => self.decode,
            Stage::Detect => self.detect,
            Stage::Embed => self.embed,
            Stage::Preview => self.preview,
        }
    }
}

/// Profiling is on for a setting that is neither empty nor `0`.
pub open spec fn switched_on(setting: Option<Seq<char>>) -> bool {
    setting matches Some(v) && v.len() > 0 && v != "0"@
}

/// A profile without samples, switched by the setting that was read at startup.
pub fn init(setting: Option<&str>) -> (p: Profile)
    ensures
        p.on == switched_on(
            match setting {
                Some(v) => Some(v@),
                None => None,
            },
        ),
        forall|stage: Stage| #[trigger] p.of(stage) == (Samples { count: 0, nanos: 0 }),
{
    let on = match setting {
        Some(v) => {
            proof {
                reveal_strlit("0");
                if v@.len() == 1 && v@[0] == '0' {
                    assert(v@ =~= "0"@);
                }
            }
            let n: usize = v.unicode_len();
            n > 1 || (n == 1 && v.get_char(0) != '0')
        },
        None => false,
    };
    let none = Samples { count: 0, nanos: 0 };
    Profile { on, decode: none, detect: none, embed: none, preview: none }
}

/// Whether profiling is on.
pub fn enabled(p: &Profile) -> (r: bool)
    ensures
        r == p.on,
{
    p.on
}

/// The samples with one more; the counts wrap around.
pub open spec fn sampled(s: Samples, nanos: u64) -> Samples {
    Samples {
        count: ((s.count + 1) % 0x1_0000_0000_0000_0000) as u64,
        nanos: ((s.nanos + nanos) % 0x1_0000_0000_0000_0000) as u64,
    }
}

fn take_sample(s: &mut Samples, nanos: u64)
    ensures
        *final(s) == sampled(*old(s), nanos),
{
    s.count = s.count.wrapping_add(1);
    s.nanos = s.nanos.wrapping_add(nanos);
}

/// Record one sample. Does nothing when profiling is off. Returns whether a summary line is
/// due: every 200 decodes, so a long sweep reports progress without spamming.
pub fn record(p: &mut Profile, stage: Stage, nanos: u64) -> (due: bool)
    ensures
        !old(p).on ==> *final(p) == *old(p) && !due,
        old(p).on ==> {
            &&& final(p).on
            &&& final(p).of(stage) == sampled(old(p).of(stage), nanos)
            &&& forall|other: Stage|
                other != stage ==> #[trigger] final(p).of(other) == old(p).of(other)
            &&& due == (stage is Decode && final(p).decode.count % 200 == 0)
        },
{
    if !p.on {
        return false;
    }
    match stage {
        Stage::Decode => take_sample(&mut p.decode, nanos),
        Stage::Detect => take_sample(&mut p.detect, nanos),
        Stage::Embed => take_sample(&mut p.embed, nanos),
        Stage::Preview => take_sample(&mut p.preview, nanos),
    }
    match stage {
        Stage::Decode => p.decode.count % 200 == 0,
        _ => false,
    }
}

} // verus!
