//! Counting the bindings applied on a search path, and their limits.
use vstd::prelude::*;

verus! {

/// How many bindings of each kind, and in total, a search path has applied.
#[derive(Debug)]
pub struct BindingCounts {
    pub simple_proj: usize,
    pub functional_proj: usize,
    pub eliminations: usize,
    pub imitations: usize,
    pub identifications: usize,
    pub total: usize,
}

/// The kinds of bindings that are counted.
#[derive(Copy, Clone, Debug, PartialEq, Eq, Structural)]
pub enum BindingKind {
    SimpleProjection,
    FunctionalProjection,
    Elimination,
    Imitation,
    Identification,
}

/// Limits for each kind of binding and for all bindings together.
#[derive(Debug)]
pub struct Config {
    pub max_simple_proj: usize,
    pub max_functional_proj: usize,
    pub max_eliminations: usize,
    pub max_imitations: usize,
    pub max_identifications: usize,
    pub max_total: usize,
}

impl Clone for BindingCounts {
    fn clone(&self) -> (res: Self)
        ensures
            res == *self,
    {
        BindingCounts {
            simple_proj: self.simple_proj,
            functional_proj: self.functional_proj,
            eliminations: self.eliminations,
            imitations: self.imitations,
            identifications: self.identifications,
            total: self.total,
        }
    }
}

impl Clone for Config {
    fn clone(&self) -> (res: Self)
        ensures
            res == *self,
    {
        Config {
            max_simple_proj: self.max_simple_proj,
            max_functional_proj: self.max_functional_proj,
            max_eliminations: self.max_eliminations,
            max_imitations: self.max_imitations,
            max_identifications: self.max_identifications,
            max_total: self.max_total,
        }
    }
}

impl Default for Config {
    /// Four bindings of each kind and ten in total.
    fn default() -> (res: Self)
        ensures
            res.max_simple_proj == 4,
            res.max_functional_proj == 4,
            res.max_eliminations == 4,
            res.max_imitations == 4,
            res.max_identifications == 4,
            res.max_total == 10,
    {
        Config {
            max_simple_proj: 4,
            max_functional_proj: 4,
            max_eliminations: 4,
            max_imitations: 4,
            max_identifications: 4,
            max_total: 10,
        }
    }
}

/// The count kept for `kind`.
pub open spec fn kind_count(c: BindingCounts, kind: BindingKind) -> usize {
    match kind {
        BindingKind::SimpleProjection => c.simple_proj,
        BindingKind::FunctionalProjection => c.functional_proj,
        BindingKind::Elimination => c.eliminations,
        BindingKind::Imitation => c.imitations,
        BindingKind::Identification => c.identifications,
    }
}

/// The limit that `config` sets for `kind`.
pub open spec fn kind_limit(config: Config, kind: BindingKind) -> usize {
    match kind {
        BindingKind::SimpleProjection => config.max_simple_proj,
        BindingKind::FunctionalProjection => config.max_functional_proj,
        BindingKind::Elimination => config.max_eliminations,
        BindingKind::Imitation => config.max_imitations,
        BindingKind::Identification => config.max_identifications,
    }
}

/// `a + b`, capped at the largest machine integer.
pub open spec fn capped_sum(a: nat, b: nat) -> nat {
    if a + b > usize::MAX {
        usize::MAX as nat
    } else {
        a + b
    }
}

/// `count` more bindings of `kind` would pass its limit or the total limit,
/// sums being capped at the largest machine integer.
pub open spec fn exceeds(c: BindingCounts, kind: BindingKind, count: nat, config: Config) -> bool {
    capped_sum(kind_count(c, kind) as nat, count) > kind_limit(config, kind)
        || capped_sum(c.total as nat, count) > config.max_total
}

/// Some count has reached its limit.
pub open spec fn reached_limit(c: BindingCounts, config: Config) -> bool {
    ||| c.simple_proj >= config.max_simple_proj
    ||| c.functional_proj >= config.max_functional_proj
    ||| c.eliminations >= config.max_eliminations
    ||| c.imitations >= config.max_imitations
    ||| c.identifications >= config.max_identifications
    ||| c.total >= config.max_total
}

/// `c` after `count` more bindings of `kind`.
pub open spec fn counts_after(c: BindingCounts, kind: BindingKind, count: nat) -> BindingCounts {
    let c2 = BindingCounts { total: (c.total + count) as usize, ..c };
    match kind {
        BindingKind::SimpleProjection => BindingCounts { simple_proj: (c.simple_proj + count) as usize, ..c2 },
        BindingKind::FunctionalProjection => BindingCounts { functional_proj: (c.functional_proj + count) as usize, ..c2 },
        BindingKind::Elimination => BindingCounts { eliminations: (c.eliminations + count) as usize, ..c2 },
        BindingKind::Imitation => BindingCounts { imitations: (c.imitations + count) as usize, ..c2 },
        BindingKind::Identification => BindingCounts { identifications: (c.identifications + count) as usize, ..c2 },
    }
}

/// Adding `count` to `kind` and to the total stays within machine integers.
pub open spec fn can_add(c: BindingCounts, kind: BindingKind, count: nat) -> bool {
    kind_count(c, kind) + count <= usize::MAX && c.total + count <= usize::MAX
}

impl BindingCounts {
    /// All counts zero.
    pub fn new() -> (res: Self)
        ensures
            res == (BindingCounts {
                simple_proj: 0,
                functional_proj: 0,
                eliminations: 0,
                imitations: 0,
                identifications: 0,
                total: 0,
            }),
    {
        BindingCounts {
            simple_proj: 0,
            functional_proj: 0,
            eliminations: 0,
            imitations: 0,
            identifications: 0,
            total: 0,
        }
    }

    /// Adds `count` to the count of `kind` and to the total.
    pub fn add_count(&mut self, kind: BindingKind, count: usize)
        requires
            can_add(*old(self), kind, count as nat),
        ensures
            *final(self) == counts_after(*old(self), kind, count as nat),
    {
        match kind {
            BindingKind::SimpleProjection => self.simple_proj += count,
            BindingKind::FunctionalProjection => self.functional_proj += count,
            BindingKind::Elimination => self.eliminations += count,
            BindingKind::Imitation => self.imitations += count,
            BindingKind::Identification => self.identifications += count,
        }
        self.total += count;
    }

    /// Whether `count` more bindings of `kind` would pass a limit of `config`.
    pub fn would_exceed(&self, kind: BindingKind, count: usize, config: &Config) -> (res: bool)
        ensures
            res == exceeds(*self, kind, count as nat, *config),
    {
        let art_over = match kind {
            BindingKind::SimpleProjection => self.simple_proj.saturating_add(count)
                > config.max_simple_proj,
            BindingKind::FunctionalProjection => self.functional_proj.saturating_add(count)
                > config.max_functional_proj,
            BindingKind::Elimination => self.eliminations.saturating_add(count)
                > config.max_eliminations,
            BindingKind::Imitation => self.imitations.saturating_add(count) > config.max_imitations,
            BindingKind::Identification => self.identifications.saturating_add(count)
                > config.max_identifications,
        };
        let total_over = self.total.saturating_add(count) > config.max_total;
        art_over || total_over
    }
}

/// Whether some count has reached its limit.
pub fn at_limit(counts: &BindingCounts, cfg: &Config) -> (res: bool)
    ensures
        res == reached_limit(*counts, *cfg),
{
    counts.simple_proj >= cfg.max_simple_proj || counts.functional_proj >= cfg.max_functional_proj
        || counts.eliminations >= cfg.max_eliminations || counts.imitations >= cfg.max_imitations
        || counts.identifications >= cfg.max_identifications || counts.total >= cfg.max_total
}

/// No binding kind is over its limit and the total is within its limit.
pub open spec fn within_limits(c: BindingCounts, config: Config) -> bool {
    &&& c.simple_proj <= config.max_simple_proj
    &&& c.functional_proj <= config.max_functional_proj
    &&& c.eliminations <= config.max_eliminations
    &&& c.imitations <= config.max_imitations
    &&& c.identifications <= config.max_identifications
    &&& c.total <= config.max_total
}

/// Adding bindings that `would_exceed` accepts keeps counts within the
/// limits of the configuration.
pub proof fn law_accepted_bindings_stay_within_limits(
    c: BindingCounts,
    kind: BindingKind,
    count: nat,
    config: Config,
)
    requires
        within_limits(c, config),
        kind_limit(config, kind) < usize::MAX,
        config.max_total < usize::MAX,
        !exceeds(c, kind, count, config),
    ensures
        can_add(c, kind, count),
        within_limits(counts_after(c, kind, count), config),
        counts_after(c, kind, count).total == c.total + count,
{
}

/// Applies a binding if the limits allow it, otherwise lets the oracle
/// decide, or fails.
pub fn try_binding(
    state: &crate::tree::State,
    kind: BindingKind,
    count: usize,
    constraint: &crate::term::Constraint,
    new_subst: crate::tree::PersistentSubst,
    config: &Config,
    step: crate::tree::Step,
) -> (res: crate::tree::State)
    requires
        crate::utils::fits_fresh(constraint.0@, constraint.1@, 1),
        exceeds(state@.binding_counts, kind, count as nat, *config) || can_add(
            state@.binding_counts,
            kind,
            count as nat,
        ),
    ensures
        res@ == crate::tree::binding_result(
            state@,
            kind,
            count as nat,
            constraint@,
            new_subst@,
            *config,
            step,
        ),
{
    state.try_binding(kind, count, constraint, new_subst, config, step)
}

} // verus!
