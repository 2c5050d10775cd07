use vstd::prelude::*;
use crate::curves::CurvePoint;

verus! {

/// One hardware command for the host program to carry out: pin one fan to
/// a speed percentage, or return one fan to the driver's automatic control.
#[derive(Clone, Copy, Debug, PartialEq, Eq, Structural)]
pub enum FanCommand {
    SetSpeed(u32, u32),
    ResetSpeed(u32),
}

/// The speed selected by a curve for a temperature: the speed of the last
/// point, in stored order, whose threshold is at or below the temperature.
pub open spec fn spec_select(curve: Seq<CurvePoint>, temperature: u32) -> Option<u32>
    decreases curve.len(),
{
    if curve.len() == 0 {
        None
    } else if curve.last().temperature <= temperature {
        Some(curve.last().speed)
    } else {
        spec_select(curve.drop_last(), temperature)
    }
}

/// The commands a transition from pinned state `cur` to target `tgt` issues,
/// one per fan index below `fans`: none when the target is already applied,
/// a reset of every fan when leaving pinned mode, and a speed write to every
/// fan when pinning a new speed.
pub open spec fn transition_cmds(cur: Option<u32>, tgt: Option<u32>, fans: u32) -> Seq<FanCommand> {
    if cur == tgt {
        Seq::empty()
    } else {
        match tgt {
            None => Seq::new(fans as nat, |k: int| FanCommand::ResetSpeed(k as u32)),
            Some(p) => Seq::new(fans as nat, |k: int| FanCommand::SetSpeed(k as u32, p)),
        }
    }
}

/// The controller's state: `None` while the hardware is under its own
/// automatic control, `Some(p)` while every fan is pinned to `p` percent.
pub struct FanControl {
    current_speed: Option<u32>,
}

impl View for FanControl {
    type V = Option<u32>;

    closed spec fn view(&self) -> Option<u32> {
        self.current_speed
    }
}

impl FanControl {
    /// A fresh controller: the hardware is assumed to be in automatic mode.
    pub fn new() -> (r: FanControl)
        ensures
            r@ is None,
    {
        FanControl { current_speed: None }
    }

    /// Scans the curve in stored order and keeps the speed of the last
    /// point whose threshold is at or below the temperature; `None` when
    /// the temperature is below every threshold.
    pub fn select_speed(curve: &[CurvePoint], temperature: u32) -> (r: Option<u32>)
        ensures
            r == spec_select(curve@, temperature),
            r is None ==> forall|k: int|
                0 <= k < curve@.len() ==> curve@[k].temperature > temperature,
            r is Some ==> exists|k: int|
                0 <= k < curve@.len() && curve@[k].temperature <= temperature
                    && r == Some(curve@[k].speed)
                    && (forall|m: int|
                        k < m < curve@.len() ==> curve@[m].temperature > temperature),
    {
        let ghost cs = curve@;
        let mut r: Option<u32> = None;
        let mut i: usize = 0;
        while i < curve.len()
            invariant
                i <= curve.len(),
                cs == curve@,
                r == spec_select(cs.take(i as int), temperature),
            decreases curve.len() - i,
        {
            proof {
                assert(cs.take(i + 1).drop_last() =~= cs.take(i as int));
                assert(cs.take(i + 1).last() == cs[i as int]);
            }
            if curve[i].temperature <= temperature {
                r = Some(curve[i].speed);
            }
            i = i + 1;
        }
        proof {
            assert(cs.take(cs.len() as int) =~= cs);
            lemma_select_characterization(cs, temperature);
        }
        r
    }

    /// Records the target as the new state and returns the hardware
    /// commands the transition calls for; an already-applied target
    /// issues none.
    pub fn set_control_speed(&mut self, speed: Option<u32>, fan_count: u32) -> (cmds: Vec<
        FanCommand,
    >)
        ensures
            final(self)@ == speed,
            cmds@ == transition_cmds(old(self)@, speed, fan_count),
    {
        let same = match (self.current_speed, speed) {
            (None, None) => true,
            (Some(a), Some(b)) => a == b,
            _ => false,
        };
        let mut cmds: Vec<FanCommand> = Vec::new();
        if same {
            assert(cmds@ =~= transition_cmds(self@, speed, fan_count));
            return cmds;
        }
        let reset = self.current_speed.is_some() && speed.is_none();
        if reset {
            let mut k: u32 = 0;
            while k < fan_count
                invariant
                    k <= fan_count,
                    cmds@ =~= Seq::new(k as nat, |j: int| FanCommand::ResetSpeed(j as u32)),
                decreases fan_count - k,
            {
                cmds.push(FanCommand::ResetSpeed(k));
                assert(cmds@ =~= Seq::new((k + 1) as nat, |j: int| FanCommand::ResetSpeed(j as u32)));
                k = k + 1;
            }
        }
        self.current_speed = speed;
        if let Some(p) = speed {
            let mut k: u32 = 0;
            while k < fan_count
                invariant
                    k <= fan_count,
                    cmds@ =~= Seq::new(k as nat, |j: int| FanCommand::SetSpeed(j as u32, p)),
                decreases fan_count - k,
            {
                cmds.push(FanCommand::SetSpeed(k, p));
                assert(cmds@ =~= Seq::new((k + 1) as nat, |j: int| FanCommand::SetSpeed(j as u32, p)));
                k = k + 1;
            }
        }
        assert(cmds@ =~= transition_cmds(old(self)@, speed, fan_count));
        cmds
    }

    /// One control-loop tick: selects the speed for the temperature and
    /// applies the state transition, returning the commands to issue.
    pub fn update_fan_speed(&mut self, curve: &[CurvePoint], temperature: u32, fan_count: u32) -> (cmds: Vec<FanCommand>)
        ensures
            final(self)@ == spec_select(curve@, temperature),
            cmds@ == transition_cmds(old(self)@, spec_select(curve@, temperature), fan_count),
    {
        let target = Self::select_speed(curve, temperature);
        self.set_control_speed(target, fan_count)
    }
}

/// A selected speed comes from the qualifying point of greatest index, and
/// `None` is returned exactly when no point qualifies.
pub proof fn lemma_select_characterization(curve: Seq<CurvePoint>, temperature: u32)
    ensures
        spec_select(curve, temperature) is None ==> forall|k: int|
            0 <= k < curve.len() ==> curve[k].temperature > temperature,
        spec_select(curve, temperature) is Some ==> exists|k: int|
            0 <= k < curve.len() && curve[k].temperature <= temperature
                && spec_select(curve, temperature) == Some(curve[k].speed)
                && (forall|m: int| k < m < curve.len() ==> curve[m].temperature > temperature),
    decreases curve.len(),
{
    if curve.len() > 0 {
        let prev = curve.drop_last();
        assert(forall|k: int| 0 <= k < prev.len() ==> prev[k] == curve[k]);
        if curve.last().temperature <= temperature {
            let k = curve.len() - 1;
            assert(curve[k].temperature <= temperature && spec_select(curve, temperature) == Some(
                curve[k].speed,
            ) && (forall|m: int| k < m < curve.len() ==> curve[m].temperature > temperature));
        } else {
            lemma_select_characterization(prev, temperature);
            if spec_select(curve, temperature) is Some {
                let k = choose|k: int|
                    0 <= k < prev.len() && prev[k].temperature <= temperature && spec_select(
                        prev,
                        temperature,
                    ) == Some(prev[k].speed) && (forall|m: int|
                        k < m < prev.len() ==> prev[m].temperature > temperature);
                assert(curve[k].temperature <= temperature && spec_select(curve, temperature)
                    == Some(curve[k].speed) && (forall|m: int|
                    k < m < curve.len() ==> curve[m].temperature > temperature));
            }
        }
    }
}

/// Applying the same pinned speed a second time in a row issues no
/// hardware writes: only the first application reaches the device.
pub proof fn lemma_repeated_apply_writes_once(p: u32, fans: u32)
    ensures
        transition_cmds(Some(p), Some(p), fans) == Seq::<FanCommand>::empty(),
{
}

/// Two ticks in a row at the same temperature issue hardware writes only
/// on the first: the second tick selects the same speed and is a no-op.
pub proof fn lemma_tick_idempotent(curve: Seq<CurvePoint>, temperature: u32, fans: u32)
    ensures
        transition_cmds(
            spec_select(curve, temperature),
            spec_select(curve, temperature),
            fans,
        ) == Seq::<FanCommand>::empty(),
{
}

/// Requesting automatic mode while already in automatic mode issues no
/// hardware commands at all.
pub proof fn lemma_auto_to_auto_is_silent(fans: u32)
    ensures
        transition_cmds(None, None, fans) == Seq::<FanCommand>::empty(),
{
}

} // verus!
