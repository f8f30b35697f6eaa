//! The checked-in opcode coverage policy.
//!
//! The table decides execution policy, not whether an opcode can be encoded.
//! Anything absent defaults to `refused`, so a new state-changing opcode fails
//! loudly while its name and complete tree still survive extraction.

use vstd::prelude::*;
use crate::text::{chars_of, seq_eq, eq_str};

verus! {

/// The opcodes the runtime executes, in ascending order.
pub open spec fn implemented_spec() -> Seq<Seq<char>> {
    implemented_part0() + implemented_part1() + implemented_part2() + implemented_part3() + implemented_part4() + implemented_part5() + implemented_part6() + implemented_part7() + implemented_part8() + implemented_part9() + implemented_part10()
}

pub open spec fn implemented_part0() -> Seq<Seq<char>> {
    seq![
        "AddresseeFinderCaster"@,
        "AddresseeFinderSelf"@,
        "AddresseeFinderSingleMob"@,
        "AddresseeFinderTarget"@,
        "AttachAbility"@,
        "BuffAttacher"@,
        "BuffDetacher"@,
        "CombatStateTrigger"@,
        "CreatureNoticedTrigger"@,
        "DestinationLocator"@
    ]
}

pub open spec fn implemented_part1() -> Seq<Seq<char>> {
    seq![
        "DeviceDie"@,
        "DeviceImpactsDeferred"@,
        "DoorSwitch"@,
        "EffectLinearStatModifier"@,
        "EffectTrigger"@,
        "EquipTrigger"@,
        "FloatData"@,
        "FloatZero"@,
        "ForceAggro"@,
        "FullHealthCalcer"@
    ]
}

pub open spec fn implemented_part2() -> Seq<Seq<char>> {
    seq![
        "GoThroughPath"@,
        "Guard"@,
        "HealthTrigger"@,
        "ImpactActivateAggro"@,
        "ImpactAddExperience"@,
        "ImpactAttachTrigger"@,
        "ImpactClearTarget"@,
        "ImpactClientData"@,
        "ImpactClientDataCoords"@,
        "ImpactCreaturesAround"@
    ]
}

pub open spec fn implemented_part3() -> Seq<Seq<char>> {
    seq![
        "ImpactDestroyItem"@,
        "ImpactDeviceDisintergrate"@,
        "ImpactDeviceSetVisualState"@,
        "ImpactDevicesAround"@,
        "ImpactDisintegrate"@,
        "ImpactFindPermanentDevice"@,
        "ImpactFindSingleDevice"@,
        "ImpactFindSingleMob"@,
        "ImpactFindSpawnTable"@,
        "ImpactGiveItem"@
    ]
}

pub open spec fn implemented_part4() -> Seq<Seq<char>> {
    seq![
        "ImpactGoToLocator"@,
        "ImpactIfCaster"@,
        "ImpactIfScriptZoneVariable"@,
        "ImpactIfTarget"@,
        "ImpactIncreaseQuestCount"@,
        "ImpactInstantiating"@,
        "ImpactInstantiatingSimple"@,
        "ImpactKill"@,
        "ImpactLearnUp"@,
        "ImpactMobChat"@
    ]
}

pub open spec fn implemented_part5() -> Seq<Seq<char>> {
    seq![
        "ImpactMobMorph"@,
        "ImpactRemoveAllBuffsFromGroup"@,
        "ImpactRemoveBuff"@,
        "ImpactRenewQuestMarks"@,
        "ImpactResetCombatAdvantage"@,
        "ImpactScriptZoneSetDisabled"@,
        "ImpactScriptZoneVariableSummand"@,
        "ImpactSetTarget"@,
        "ImpactStopSpawn"@,
        "ImpactStopTalk"@
    ]
}

pub open spec fn implemented_part6() -> Seq<Seq<char>> {
    seq![
        "ImpactSummon"@,
        "ImpactTeleportLoc"@,
        "ImpactTurnMob"@,
        "ImpactsDeferred"@,
        "ImpactsToInterlocutor"@,
        "LifeGuard"@,
        "LinearEffectScaler"@,
        "LinerMultiplierScaler"@,
        "MarkedImpact"@,
        "PhysicalRangedScaler"@
    ]
}

pub open spec fn implemented_part7() -> Seq<Seq<char>> {
    seq![
        "PhysicalScaler"@,
        "PredicateAnd"@,
        "PredicateCharacterClass"@,
        "PredicateCharacterRace"@,
        "PredicateEquipped"@,
        "PredicateHasCombatAdvantage"@,
        "PredicateHasItem"@,
        "PredicateIsAvatar"@,
        "PredicateIsDead"@,
        "PredicateIsMob"@
    ]
}

pub open spec fn implemented_part8() -> Seq<Seq<char>> {
    seq![
        "PredicateMobWorld"@,
        "PredicateNot"@,
        "PredicateOr"@,
        "PredicateQuestStatus"@,
        "PredicateRemote"@,
        "PredicateVariableValueGreatThan"@,
        "PredicateVariableValueLessThan"@,
        "ProbabilisticImpact"@,
        "ProbabilisticImpactBinary"@,
        "RandomImpact"@
    ]
}

pub open spec fn implemented_part9() -> Seq<Seq<char>> {
    seq![
        "ResetSpawnTable"@,
        "ReturningImpact"@,
        "ReturningInstantiatingImpact"@,
        "ScaledPhysicalDamage"@,
        "ScaledPhysicalWeaponDamage"@,
        "ScalerAllInputDamage"@,
        "ScalerAllOutputDamage"@,
        "SpawnSingleDevice"@,
        "SpawnSingleMob"@,
        "SpawnTableObjects"@
    ]
}

pub open spec fn implemented_part10() -> Seq<Seq<char>> {
    seq![
        "Switch"@,
        "TagMobForKill"@,
        "TriggerAgentInterlocutor"@,
        "TriggerAgentOnTagged"@,
        "TriggerAgentSelf"@,
        "TriggerAgentSimple"@,
        "TriggerResource"@,
        "TrivialScaler"@,
        "WeaponSpeedScaler"@
    ]
}

/// The opcodes kept and counted but never executed, in ascending order.
pub open spec fn inert_spec() -> Seq<Seq<char>> {
    seq![
        "AutoAttackDisabler"@,
        "EffectDisableEvadeTimeout"@,
        "EffectDisableMove"@,
        "EffectDisableRotate"@,
        "EffectNoAggro"@,
        "EntityImpactCreaturesAround"@,
        "EntityImpactsOverTime"@,
        "ImpactLaunchProjectile"@,
        "ImpactsOverTime"@,
        "PredicateProjectile"@,
        "ScaledMagicDamage"@
    ]
}

pub open spec fn str_views(v: Seq<&'static str>) -> Seq<Seq<char>> {
    v.map_values(|s: &'static str| s@)
}

/// The tier an opcode runs at.
pub open spec fn tier_of(opcode: Seq<char>) -> Seq<char> {
    if implemented_spec().contains(opcode) {
        "implemented"@
    } else if inert_spec().contains(opcode) {
        "inert-and-counted"@
    } else {
        "refused"@
    }
}

pub fn implemented_opcodes() -> (out: Vec<&'static str>)
    ensures
        str_views(out@) == implemented_spec(),
{
    let mut out: Vec<&'static str> = Vec::new();
    let ghost before = str_views(out@);
    out.push("AddresseeFinderCaster");
    out.push("AddresseeFinderSelf");
    out.push("AddresseeFinderSingleMob");
    out.push("AddresseeFinderTarget");
    out.push("AttachAbility");
    out.push("BuffAttacher");
    out.push("BuffDetacher");
    out.push("CombatStateTrigger");
    out.push("CreatureNoticedTrigger");
    out.push("DestinationLocator");
    assert(str_views(out@) =~= before + implemented_part0());
    assert(str_views(out@) =~= implemented_part0());
    let ghost before = str_views(out@);
    out.push("DeviceDie");
    out.push("DeviceImpactsDeferred");
    out.push("DoorSwitch");
    out.push("EffectLinearStatModifier");
    out.push("EffectTrigger");
    out.push("EquipTrigger");
    out.push("FloatData");
    out.push("FloatZero");
    out.push("ForceAggro");
    out.push("FullHealthCalcer");
    assert(str_views(out@) =~= before + implemented_part1());
    assert(str_views(out@) =~= implemented_part0() + implemented_part1());
    let ghost before = str_views(out@);
    out.push("GoThroughPath");
    out.push("Guard");
    out.push("HealthTrigger");
    out.push("ImpactActivateAggro");
    out.push("ImpactAddExperience");
    out.push("ImpactAttachTrigger");
    out.push("ImpactClearTarget");
    out.push("ImpactClientData");
    out.push("ImpactClientDataCoords");
    out.push("ImpactCreaturesAround");
    assert(str_views(out@) =~= before + implemented_part2());
    assert(str_views(out@) =~= implemented_part0() + implemented_part1() + implemented_part2());
    let ghost before = str_views(out@);
    out.push("ImpactDestroyItem");
    out.push("ImpactDeviceDisintergrate");
    out.push("ImpactDeviceSetVisualState");
    out.push("ImpactDevicesAround");
    out.push("ImpactDisintegrate");
    out.push("ImpactFindPermanentDevice");
    out.push("ImpactFindSingleDevice");
    out.push("ImpactFindSingleMob");
    out.push("ImpactFindSpawnTable");
    out.push("ImpactGiveItem");
    assert(str_views(out@) =~= before + implemented_part3());
    assert(str_views(out@) =~= implemented_part0() + implemented_part1() + implemented_part2() + implemented_part3());
    let ghost before = str_views(out@);
    out.push("ImpactGoToLocator");
    out.push("ImpactIfCaster");
    out.push("ImpactIfScriptZoneVariable");
    out.push("ImpactIfTarget");
    out.push("ImpactIncreaseQuestCount");
    out.push("ImpactInstantiating");
    out.push("ImpactInstantiatingSimple");
    out.push("ImpactKill");
    out.push("ImpactLearnUp");
    out.push("ImpactMobChat");
    assert(str_views(out@) =~= before + implemented_part4());
    assert(str_views(out@) =~= implemented_part0() + implemented_part1() + implemented_part2() + implemented_part3() + implemented_part4());
    let ghost before = str_views(out@);
    out.push("ImpactMobMorph");
    out.push("ImpactRemoveAllBuffsFromGroup");
    out.push("ImpactRemoveBuff");
    out.push("ImpactRenewQuestMarks");
    out.push("ImpactResetCombatAdvantage");
    out.push("ImpactScriptZoneSetDisabled");
    out.push("ImpactScriptZoneVariableSummand");
    out.push("ImpactSetTarget");
    out.push("ImpactStopSpawn");
    out.push("ImpactStopTalk");
    assert(str_views(out@) =~= before + implemented_part5());
    assert(str_views(out@) =~= implemented_part0() + implemented_part1() + implemented_part2() + implemented_part3() + implemented_part4() + implemented_part5());
    let ghost before = str_views(out@);
    out.push("ImpactSummon");
    out.push("ImpactTeleportLoc");
    out.push("ImpactTurnMob");
    out.push("ImpactsDeferred");
    out.push("ImpactsToInterlocutor");
    out.push("LifeGuard");
    out.push("LinearEffectScaler");
    out.push("LinerMultiplierScaler");
    out.push("MarkedImpact");
    out.push("PhysicalRangedScaler");
    assert(str_views(out@) =~= before + implemented_part6());
    assert(str_views(out@) =~= implemented_part0() + implemented_part1() + implemented_part2() + implemented_part3() + implemented_part4() + implemented_part5() + implemented_part6());
    let ghost before = str_views(out@);
    out.push("PhysicalScaler");
    out.push("PredicateAnd");
    out.push("PredicateCharacterClass");
    out.push("PredicateCharacterRace");
    out.push("PredicateEquipped");
    out.push("PredicateHasCombatAdvantage");
    out.push("PredicateHasItem");
    out.push("PredicateIsAvatar");
    out.push("PredicateIsDead");
    out.push("PredicateIsMob");
    assert(str_views(out@) =~= before + implemented_part7());
    assert(str_views(out@) =~= implemented_part0() + implemented_part1() + implemented_part2() + implemented_part3() + implemented_part4() + implemented_part5() + implemented_part6() + implemented_part7());
    let ghost before = str_views(out@);
    out.push("PredicateMobWorld");
    out.push("PredicateNot");
    out.push("PredicateOr");
    out.push("PredicateQuestStatus");
    out.push("PredicateRemote");
    out.push("PredicateVariableValueGreatThan");
    out.push("PredicateVariableValueLessThan");
    out.push("ProbabilisticImpact");
    out.push("ProbabilisticImpactBinary");
    out.push("RandomImpact");
    assert(str_views(out@) =~= before + implemented_part8());
    assert(str_views(out@) =~= implemented_part0() + implemented_part1() + implemented_part2() + implemented_part3() + implemented_part4() + implemented_part5() + implemented_part6() + implemented_part7() + implemented_part8());
    let ghost before = str_views(out@);
    out.push("ResetSpawnTable");
    out.push("ReturningImpact");
    out.push("ReturningInstantiatingImpact");
    out.push("ScaledPhysicalDamage");
    out.push("ScaledPhysicalWeaponDamage");
    out.push("ScalerAllInputDamage");
    out.push("ScalerAllOutputDamage");
    out.push("SpawnSingleDevice");
    out.push("SpawnSingleMob");
    out.push("SpawnTableObjects");
    assert(str_views(out@) =~= before + implemented_part9());
    assert(str_views(out@) =~= implemented_part0() + implemented_part1() + implemented_part2() + implemented_part3() + implemented_part4() + implemented_part5() + implemented_part6() + implemented_part7() + implemented_part8() + implemented_part9());
    let ghost before = str_views(out@);
    out.push("Switch");
    out.push("TagMobForKill");
    out.push("TriggerAgentInterlocutor");
    out.push("TriggerAgentOnTagged");
    out.push("TriggerAgentSelf");
    out.push("TriggerAgentSimple");
    out.push("TriggerResource");
    out.push("TrivialScaler");
    out.push("WeaponSpeedScaler");
    assert(str_views(out@) =~= before + implemented_part10());
    assert(str_views(out@) =~= implemented_part0() + implemented_part1() + implemented_part2() + implemented_part3() + implemented_part4() + implemented_part5() + implemented_part6() + implemented_part7() + implemented_part8() + implemented_part9() + implemented_part10());
    out
}

pub fn inert_opcodes() -> (out: Vec<&'static str>)
    ensures
        str_views(out@) == inert_spec(),
{
    let mut out: Vec<&'static str> = Vec::new();
    out.push("AutoAttackDisabler");
    out.push("EffectDisableEvadeTimeout");
    out.push("EffectDisableMove");
    out.push("EffectDisableRotate");
    out.push("EffectNoAggro");
    out.push("EntityImpactCreaturesAround");
    out.push("EntityImpactsOverTime");
    out.push("ImpactLaunchProjectile");
    out.push("ImpactsOverTime");
    out.push("PredicateProjectile");
    out.push("ScaledMagicDamage");
    assert(str_views(out@) =~= inert_spec());
    out
}

fn listed(table: &Vec<&'static str>, opcode: &[char]) -> (r: bool)
    ensures
        r == str_views(table@).contains(opcode@),
{
    let mut i: usize = 0;
    while i < table.len()
        invariant
            i <= table@.len(),
            forall|k: int| 0 <= k < i ==> (#[trigger] table@[k])@ != opcode@,
        decreases table@.len() - i,
    {
        if eq_str(opcode, table[i]) {
            assert(str_views(table@)[i as int] == opcode@);
            return true;
        }
        i = i + 1;
    }
    assert forall|k: int| 0 <= k < str_views(table@).len() implies str_views(table@)[k] != opcode@ by {
        assert(str_views(table@)[k] == table@[k]@);
    }
    false
}

/// The execution tier of an opcode: `implemented`, `inert-and-counted`, or
/// `refused` for anything the tables do not list.
pub fn tier_for(opcode: &str) -> (tier: &'static str)
    ensures
        tier@ == tier_of(opcode@),
{
    let op = chars_of(opcode);
    if listed(&implemented_opcodes(), op.as_slice()) {
        "implemented"
    } else if listed(&inert_opcodes(), op.as_slice()) {
        "inert-and-counted"
    } else {
        "refused"
    }
}

} // verus!
