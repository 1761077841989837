use vstd::prelude::*;
use crate::bitarray::{BitArray, BitState, RangedByte};

verus! {

/// A bitsize of a port: a value in `1..=64`.
pub type BitSize = RangedByte<1, 64>;

/// The direction of a port.
#[derive(Debug, PartialEq, Eq, Clone, Copy, Hash, Structural)]
pub enum PortType {
    /// The component reads this port.
    Input,
    /// The component drives this port.
    Output,
    /// The component both reads and drives this port.
    Inout,
}

/// The properties of one port of a component.
#[derive(Debug, PartialEq, Eq, Clone, Copy, Hash, Structural)]
pub struct PortProperties {
    /// The direction of the port.
    pub ty: PortType,
    /// The number of bits the port carries.
    pub bitsize: u8,
}

/// A new value for one port of a component.
#[derive(Debug, PartialEq, Eq, Clone, Copy, Hash)]
pub struct PortUpdate {
    /// The index of the port.
    pub index: usize,
    /// The new value of the port.
    pub value: BitArray,
}

impl View for PortUpdate {
    type V = (int, Seq<BitState>);

    open spec fn view(&self) -> (int, Seq<BitState>) {
        (self.index as int, self.value@)
    }
}

/// The port values a component is run with.
pub struct RunContext<'a> {
    /// The values of the ports before the update that triggered this run.
    pub old_ports: &'a [BitArray],
    /// The values of the ports after that update.
    pub new_ports: &'a [BitArray],
}

/// The states held by each port.
pub open spec fn port_views(ports: Seq<BitArray>) -> Seq<Seq<BitState>> {
    ports.map_values(|p: BitArray| p@)
}

/// The (index, states) pairs of a list of updates.
pub open spec fn update_views(updates: Seq<PortUpdate>) -> Seq<(int, Seq<BitState>)> {
    updates.map_values(|u: PortUpdate| u@)
}

/// Appending an update appends its view.
pub proof fn lemma_update_views_push(s: Seq<PortUpdate>, u: PortUpdate)
    ensures
        update_views(s.push(u)) == update_views(s).push(u@),
{
    assert(update_views(s.push(u)) =~= update_views(s).push(u@));
}

/// Whether the port values fit the port properties:
/// one value per port, each of the port's bitsize.
pub open spec fn ports_match(props: Seq<PortProperties>, ports: Seq<Seq<BitState>>) -> bool {
    &&& ports.len() == props.len()
    &&& forall|i: int| 0 <= i < ports.len() ==> #[trigger] ports[i].len() == props[i].bitsize
}

/// The list that repeats each `(props, n)` entry's properties `n` times, in order.
pub open spec fn port_list_spec(groups: Seq<(PortProperties, usize)>) -> Seq<PortProperties>
    decreases groups.len(),
{
    if groups.len() == 0 {
        Seq::empty()
    } else {
        port_list_spec(groups.drop_last()) + Seq::new(groups.last().1 as nat, |i: int| groups.last().0)
    }
}

/// Expands a list of `(properties, count)` groups into one entry per port.
pub fn port_list(groups: &[(PortProperties, usize)]) -> (r: Vec<PortProperties>)
    ensures
        r@ == port_list_spec(groups@),
{
    let mut r: Vec<PortProperties> = Vec::new();
    let mut g: usize = 0;
    while g < groups.len()
        invariant
            g <= groups@.len(),
            r@ == port_list_spec(groups@.subrange(0, g as int)),
        decreases groups@.len() - g,
    {
        let (props, n) = groups[g];
        let ghost before = r@;
        let mut k: usize = 0;
        while k < n
            invariant
                k <= n,
                r@ == before + Seq::new(k as nat, |i: int| props),
            decreases n - k,
        {
            r.push(props);
            k = k + 1;
            assert(r@ =~= before + Seq::new(k as nat, |i: int| props));
        }
        proof {
            let s = groups@.subrange(0, g + 1);
            assert(s.drop_last() =~= groups@.subrange(0, g as int));
            assert(s.last() == (props, n));
        }
        g = g + 1;
    }
    assert(groups@.subrange(0, groups@.len() as int) =~= groups@);
    r
}

/// One floating value per port, each of the port's bitsize.
pub fn floating_ports(props: &[PortProperties]) -> (r: Vec<BitArray>)
    requires
        forall|i: int| 0 <= i < props@.len() ==> #[trigger] props@[i].bitsize <= 64,
    ensures
        r@.len() == props@.len(),
        forall|i: int| 0 <= i < r@.len() ==>
            #[trigger] r@[i]@ == Seq::new(props@[i].bitsize as nat, |j: int| BitState::Imped),
{
    let mut r: Vec<BitArray> = Vec::new();
    let mut i: usize = 0;
    while i < props.len()
        invariant
            i <= props@.len(),
            forall|k: int| 0 <= k < props@.len() ==> #[trigger] props@[k].bitsize <= 64,
            r@.len() == i,
            forall|k: int| 0 <= k < i ==>
                #[trigger] r@[k]@ == Seq::new(props@[k].bitsize as nat, |j: int| BitState::Imped),
        decreases props@.len() - i,
    {
        r.push(BitArray::repeat(BitState::Imped, props[i].bitsize));
        i = i + 1;
    }
    r
}

/// When a change of a port's value activates a component.
#[derive(Debug, PartialEq, Eq, Clone, Copy, Hash, Structural)]
pub enum Sensitivity {
    /// Any change of the value.
    Anyedge,
}

impl Sensitivity {
    /// Whether the change from `old` to `new` activates this sensitivity.
    pub fn activated(self, old: BitArray, new: BitArray) -> (r: bool)
        ensures
            r == (old@ != new@),
    {
        match self {
            Sensitivity::Anyedge => !old.same_states(&new),
        }
    }

    /// Whether any port's change from `old` to `new` activates this sensitivity.
    pub fn any_activated(self, old: &[BitArray], new: &[BitArray]) -> (r: bool)
        requires
            old@.len() == new@.len(),
        ensures
            r == exists|i: int| 0 <= i < old@.len() && #[trigger] old@[i]@ != new@[i]@,
    {
        let mut i: usize = 0;
        while i < old.len()
            invariant
                old@.len() == new@.len(),
                i <= old@.len(),
                forall|k: int| 0 <= k < i ==> #[trigger] old@[k]@ == new@[k]@,
            decreases old@.len() - i,
        {
            if self.activated(old[i], new[i]) {
                return true;
            }
            i = i + 1;
        }
        false
    }
}

} // verus!
