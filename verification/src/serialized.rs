use vstd::prelude::*;

verus! {

/// One NPC-kind catalogue record. Sibling world data carried through the
/// snapshot for other components; this subsystem stores it and hands it on
/// without reading it.
pub struct NPCType {
    pub data: Vec<u8>,
}

/// An NPC kind as the snapshot carries it: the catalogue record plus the
/// sprite bytes the renderer will decode.
pub struct SerializedNPCType {
    pub identifier: String,
    pub data: NPCType,
    pub sprite: Vec<u8>,
    pub battle_sprite: Option<Vec<u8>>,
}

/// One palette table entry of the snapshot's sibling world data.
pub struct Palette {
    pub id: u8,
    pub bottom: Vec<u8>,
}

} // verus!
