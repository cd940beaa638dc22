//! The layer mapper: which configuration a key has under a given layer.
//!
//! An association table over (layer, key) pairs. Lookup is a pure
//! function of the pair; the earliest binding for a pair wins, and an
//! unbound pair has no configuration.

use vstd::prelude::*;
use crate::config::{KeyConfig, KeyId, LayerId};

verus! {

/// One (layer, key) -> configuration binding.
#[derive(PartialEq, Debug, Clone, Copy)]
pub struct Binding {
    pub layer: LayerId,
    pub key: KeyId,
    pub config: KeyConfig,
}

/// The configuration the binding table gives to `key` under `layer`:
/// that of the earliest binding for the pair, or none.
pub open spec fn lookup_in(binds: Seq<Binding>, layer: LayerId, key: KeyId) -> Option<KeyConfig>
    decreases binds.len(),
{
    if binds.len() == 0 {
        None
    } else if binds[0].layer == layer && binds[0].key == key {
        Some(binds[0].config)
    } else {
        lookup_in(binds.drop_first(), layer, key)
    }
}

/// An association-table layer mapper.
#[derive(Debug, Clone)]
pub struct LayerMapper {
    binds: Vec<Binding>,
}

impl LayerMapper {
    /// The bindings the mapper holds, in the order they were added.
    pub closed spec fn bindings(self) -> Seq<Binding> {
        self.binds@
    }

    /// What `lookup` returns for a pair.
    pub open spec fn spec_lookup(self, layer: LayerId, key: KeyId) -> Option<KeyConfig> {
        lookup_in(self.bindings(), layer, key)
    }

    /// A mapper with no bindings.
    pub fn new() -> (r: Self)
        ensures
            r.bindings() == Seq::<Binding>::empty(),
    {
        LayerMapper { binds: Vec::new() }
    }

    /// Binds `key` under `layer` to `config`. An earlier binding for the
    /// same pair keeps precedence.
    pub fn bind(&mut self, layer: LayerId, key: KeyId, config: KeyConfig)
        ensures
            final(self).bindings() == old(self).bindings().push((Binding { layer, key, config })),
    {
        self.binds.push(Binding { layer, key, config });
    }

    /// The configuration bound to `key` under `layer`, or `None` when the
    /// pair is unbound.
    pub fn lookup(&self, layer: LayerId, key: KeyId) -> (r: Option<KeyConfig>)
        ensures
            r == self.spec_lookup(layer, key),
    {
        let n = self.binds.len();
        let mut i: usize = 0;
        proof {
            assert(self.binds@.skip(0) =~= self.binds@);
        }
        while i < n
            invariant
                i <= n,
                n == self.binds@.len(),
                lookup_in(self.binds@.skip(i as int), layer, key) == lookup_in(
                    self.binds@,
                    layer,
                    key,
                ),
            decreases n - i,
        {
            let b = self.binds[i];
            proof {
                assert(self.binds@.skip(i as int)[0] == self.binds@[i as int]);
                assert(self.binds@.skip(i as int).drop_first() =~= self.binds@.skip(i + 1));
            }
            if b.layer == layer && b.key == key {
                return Some(b.config);
            }
            i = i + 1;
        }
        proof {
            assert(self.binds@.skip(n as int) =~= Seq::<Binding>::empty());
        }
        None
    }
}

} // verus!
