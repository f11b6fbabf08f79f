use vstd::prelude::*;

use crate::text::{chars_eq_str, lower_chars, lower_seq};

verus! {

/// The build metric that results are ranked by.
#[derive(Debug, Clone, Copy, PartialEq, Eq, Structural)]
pub enum SortKey {
    Ttk,
    Dps,
    Damage,
    DamageEnd,
    FireRate,
    Magazine,
}

/// Whether the best results have the highest or the lowest metric;
/// `Auto` picks one from the sort key.
#[derive(Debug, Clone, Copy, PartialEq, Eq, Structural)]
pub enum SortPriority {
    Highest,
    Lowest,
    Auto,
}


/// A command-line choice that names no known option; it keeps the text given.
#[derive(Debug, Clone, PartialEq, Eq)]
pub enum ChoiceError {
    InvalidSortKey(String),
    InvalidPriority(String),
}

/// The sort key a name stands for, ASCII case ignored.
pub open spec fn sort_key_named(name: Seq<char>) -> Option<SortKey> {
    let l = lower_seq(name);
    if l == "ttk"@ {
        Some(SortKey::Ttk)
    } else if l == "dps"@ {
        Some(SortKey::Dps)
    } else if l == "damage"@ {
        Some(SortKey::Damage)
    } else if l == "damageend"@ {
        Some(SortKey::DamageEnd)
    } else if l == "firerate"@ {
        Some(SortKey::FireRate)
    } else if l == "magazine"@ {
        Some(SortKey::Magazine)
    } else {
        None
    }
}

/// The priority a name stands for, ASCII case ignored.
pub open spec fn priority_named(name: Seq<char>) -> Option<SortPriority> {
    let l = lower_seq(name);
    if l == "highest"@ {
        Some(SortPriority::Highest)
    } else if l == "lowest"@ {
        Some(SortPriority::Lowest)
    } else if l == "auto"@ {
        Some(SortPriority::Auto)
    } else {
        None
    }
}

impl SortKey {
    pub fn parse(value: &str) -> (r: Result<SortKey, ChoiceError>)
        ensures
            match r {
                Ok(k) => sort_key_named(value@) == Some(k),
                Err(ChoiceError::InvalidSortKey(v)) => sort_key_named(value@) is None && v@ == value@,
                Err(_) => false,
            },
    {
        let l = lower_chars(value);
        if chars_eq_str(l.as_slice(), "ttk") {
            Ok(SortKey::Ttk)
        } else if chars_eq_str(l.as_slice(), "dps") {
            Ok(SortKey::Dps)
        } else if chars_eq_str(l.as_slice(), "damage") {
            Ok(SortKey::Damage)
        } else if chars_eq_str(l.as_slice(), "damageend") {
            Ok(SortKey::DamageEnd)
        } else if chars_eq_str(l.as_slice(), "firerate") {
            Ok(SortKey::FireRate)
        } else if chars_eq_str(l.as_slice(), "magazine") {
            Ok(SortKey::Magazine)
        } else {
            Err(ChoiceError::InvalidSortKey(value.to_owned()))
        }
    }
}

impl SortPriority {
    pub fn parse(value: &str) -> (r: Result<SortPriority, ChoiceError>)
        ensures
            match r {
                Ok(p) => priority_named(value@) == Some(p),
                Err(ChoiceError::InvalidPriority(v)) => priority_named(value@) is None && v@ == value@,
                Err(_) => false,
            },
    {
        let l = lower_chars(value);
        if chars_eq_str(l.as_slice(), "highest") {
            Ok(SortPriority::Highest)
        } else if chars_eq_str(l.as_slice(), "lowest") {
            Ok(SortPriority::Lowest)
        } else if chars_eq_str(l.as_slice(), "auto") {
            Ok(SortPriority::Auto)
        } else {
            Err(ChoiceError::InvalidPriority(value.to_owned()))
        }
    }
}

/// `a` ranks strictly ahead of `b` under a resolved priority
/// (`Auto` ranks nothing ahead of anything).
pub open spec fn outranks(priority: SortPriority, a: i64, b: i64) -> bool {
    match priority {
        SortPriority::Highest => a > b,
        SortPriority::Lowest => a < b,
        SortPriority::Auto => false,
    }
}

/// The priority that `Auto` stands for: time-to-kill is best when lowest,
/// every other metric when highest.
pub open spec fn resolved_priority(key: SortKey, priority: SortPriority) -> SortPriority {
    match priority {
        SortPriority::Auto => if key == SortKey::Ttk {
            SortPriority::Lowest
        } else {
            SortPriority::Highest
        },
        other => other,
    }
}

/// What `Auto` means: a shorter time to kill ranks ahead, and for every other
/// metric (damage per second, damage, damage at range, fire rate, magazine
/// size) a larger value ranks ahead. An explicit priority is kept as given.
pub proof fn lemma_auto_priority(key: SortKey, priority: SortPriority, a: i64, b: i64)
    ensures
        priority != SortPriority::Auto ==> resolved_priority(key, priority) == priority,
        priority == SortPriority::Auto ==> (outranks(resolved_priority(key, priority), a, b) <==> if key
            == SortKey::Ttk {
            a < b
        } else {
            a > b
        }),
        resolved_priority(SortKey::FireRate, SortPriority::Auto) == SortPriority::Highest,
        resolved_priority(SortKey::Dps, SortPriority::Auto) == SortPriority::Highest,
        resolved_priority(SortKey::Damage, SortPriority::Auto) == SortPriority::Highest,
        resolved_priority(SortKey::DamageEnd, SortPriority::Auto) == SortPriority::Highest,
        resolved_priority(SortKey::Magazine, SortPriority::Auto) == SortPriority::Highest,
        resolved_priority(SortKey::Ttk, SortPriority::Auto) == SortPriority::Lowest,
{
}

/// A sort key together with a priority that is never `Auto`.
#[derive(Debug, Clone, Copy, PartialEq, Eq, Structural)]
pub struct Ranking {
    pub key: SortKey,
    pub priority: SortPriority,
}

impl Ranking {
    /// Resolves `Auto` the way the calculator does.
    pub fn resolve(key: SortKey, priority: SortPriority) -> (r: Ranking)
        ensures
            r.key == key,
            r.priority == resolved_priority(key, priority),
            r.priority != SortPriority::Auto,
    {
        let resolved = match priority {
            SortPriority::Auto => if key == SortKey::Ttk {
                SortPriority::Lowest
            } else {
                SortPriority::Highest
            },
            other => other,
        };
        Ranking { key, priority: resolved }
    }

    /// Whether metric key `left` ranks strictly ahead of `right`.
    pub fn better(self, left: i64, right: i64) -> (r: bool)
        requires
            self.priority != SortPriority::Auto,
        ensures
            r == outranks(self.priority, left, right),
    {
        outranks_exec(self.priority, left, right)
    }
}

pub fn outranks_exec(priority: SortPriority, left: i64, right: i64) -> (r: bool)
    requires
        priority != SortPriority::Auto,
    ensures
        r == outranks(priority, left, right),
{
    match priority {
        SortPriority::Highest => left > right,
        SortPriority::Lowest => left < right,
        SortPriority::Auto => false,
    }
}

} // verus!
