//! The rejection set: Solidity-subset constructs that cannot be projected
//! onto a UTXO covenant and belong to the vProgs (Tier-3) layer. A
//! covenant entrypoint that uses one is rejected at parse time, naming the
//! construct; a non-covenant entrypoint records it as a raw hole.

use vstd::prelude::*;
use crate::grammar::{rc_lead, rc_method};

verus! {

/// One entry of the rejection set. `lead` is the statement head (or, when
/// `as_method_call`, the method name of a `.lead(` call) that flags it.
#[derive(Debug, Clone, Copy)]
pub struct RejectedConstruct {
    pub lead: &'static str,
    pub as_method_call: bool,
    pub reason: &'static str,
    pub subset_ref: &'static str,
}

/// The number of entries in the rejection set.
pub const REJECTION_SET_LEN: usize = 8;

/// Why entry `i` of the rejection set cannot be a covenant.
pub open spec fn rc_reason(i: int) -> Seq<char> {
    if i <= 1 {
        "unbounded loops cannot be expressed in a covenant (script has no general iteration)"@
    } else if i == 2 {
        "event logs have no native equivalent on Kaspa; reconstruct from the UTXO graph off-chain"@
    } else if i == 3 {
        "shared mutable mappings require an account model; the UTXO model has no global mutable ledger"@
    } else if i <= 5 {
        "the approve/transferFrom allowance pattern needs a global allowance ledger"@
    } else {
        "synchronous cross-contract calls require an account model or vProg composition"@
    }
}

/// Where entry `i` of the rejection set is documented.
pub open spec fn rc_ref(i: int) -> Seq<char> {
    if i <= 1 {
        "SOLIDITY-SUBSET-V0 §3 item 9 (dynamic/unbounded forms)"@
    } else if i == 2 {
        "SOLIDITY-SUBSET-V0 §3 item 7 (event logs)"@
    } else if i == 3 {
        "SOLIDITY-SUBSET-V0 §3 item 1 (shared mutable mappings)"@
    } else if i <= 5 {
        "SOLIDITY-SUBSET-V0 §3 item 2 (approve/transferFrom)"@
    } else {
        "SOLIDITY-SUBSET-V0 §3 item 3 (synchronous cross-contract calls)"@
    }
}

/// Entry `i` of the rejection set.
pub fn rejected_construct(i: usize) -> (r: RejectedConstruct)
    requires
        i < REJECTION_SET_LEN,
    ensures
        r.lead@ == rc_lead(i as int),
        r.as_method_call == rc_method(i as int),
        r.reason@ == rc_reason(i as int),
        r.subset_ref@ == rc_ref(i as int),
{
    if i == 0 {
        RejectedConstruct {
            lead: "for",
            as_method_call: false,
            reason: "unbounded loops cannot be expressed in a covenant (script has no general iteration)",
            subset_ref: "SOLIDITY-SUBSET-V0 §3 item 9 (dynamic/unbounded forms)",
        }
    } else if i == 1 {
        RejectedConstruct {
            lead: "while",
            as_method_call: false,
            reason: "unbounded loops cannot be expressed in a covenant (script has no general iteration)",
            subset_ref: "SOLIDITY-SUBSET-V0 §3 item 9 (dynamic/unbounded forms)",
        }
    } else if i == 2 {
        RejectedConstruct {
            lead: "emit",
            as_method_call: false,
            reason: "event logs have no native equivalent on Kaspa; reconstruct from the UTXO graph off-chain",
            subset_ref: "SOLIDITY-SUBSET-V0 §3 item 7 (event logs)",
        }
    } else if i == 3 {
        RejectedConstruct {
            lead: "mapping",
            as_method_call: false,
            reason: "shared mutable mappings require an account model; the UTXO model has no global mutable ledger",
            subset_ref: "SOLIDITY-SUBSET-V0 §3 item 1 (shared mutable mappings)",
        }
    } else if i == 4 {
        RejectedConstruct {
            lead: "approve",
            as_method_call: false,
            reason: "the approve/transferFrom allowance pattern needs a global allowance ledger",
            subset_ref: "SOLIDITY-SUBSET-V0 §3 item 2 (approve/transferFrom)",
        }
    } else if i == 5 {
        RejectedConstruct {
            lead: "transferFrom",
            as_method_call: false,
            reason: "the approve/transferFrom allowance pattern needs a global allowance ledger",
            subset_ref: "SOLIDITY-SUBSET-V0 §3 item 2 (approve/transferFrom)",
        }
    } else if i == 6 {
        RejectedConstruct {
            lead: "delegatecall",
            as_method_call: true,
            reason: "synchronous cross-contract calls require an account model or vProg composition",
            subset_ref: "SOLIDITY-SUBSET-V0 §3 item 3 (synchronous cross-contract calls)",
        }
    } else {
        RejectedConstruct {
            lead: "call",
            as_method_call: true,
            reason: "synchronous cross-contract calls require an account model or vProg composition",
            subset_ref: "SOLIDITY-SUBSET-V0 §3 item 3 (synchronous cross-contract calls)",
        }
    }
}

/// The whole rejection set, in order.
pub fn rejection_set() -> (v: Vec<RejectedConstruct>)
    ensures
        v@.len() == REJECTION_SET_LEN,
        forall|i: int|
            0 <= i < REJECTION_SET_LEN ==> (#[trigger] v@[i]).lead@ == rc_lead(i)
                && v@[i].as_method_call == rc_method(i),
{
    let mut v: Vec<RejectedConstruct> = Vec::new();
    let mut i: usize = 0;
    while i < REJECTION_SET_LEN
        invariant
            i <= REJECTION_SET_LEN,
            v@.len() == i,
            forall|k: int|
                0 <= k < i ==> (#[trigger] v@[k]).lead@ == rc_lead(k) && v@[k].as_method_call
                    == rc_method(k),
        decreases REJECTION_SET_LEN - i,
    {
        v.push(rejected_construct(i));
        i += 1;
    }
    v
}

} // verus!
