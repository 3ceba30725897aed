//! Node handles and node kinds of the scene.
use vstd::prelude::*;
use slotmap::{DefaultKey, Key, KeyData};

verus! {

#[verifier::external_type_specification]
#[verifier::external_body]
pub struct ExDefaultKey(DefaultKey);

/// What `slotmap::KeyData::as_ffi` returns for the data of key `k`: in the slotmap source, the
/// key's version in the high 32 bits and its slot index in the low 32.
pub uninterp spec fn key_ffi(k: DefaultKey) -> u64;

/// Calls `slotmap::KeyData::as_ffi` on the key's data (`Key::data`). The contract names the
/// result `key_ffi(k)` and claims that its version half is odd, as slotmap keeps every version
/// odd; which index and version a key holds is not claimed, as the key is opaque here.
#[verifier::external_body]
fn key_to_ffi(k: DefaultKey) -> (r: u64)
    ensures
        r == key_ffi(k),
        (r >> 32u64) & 1u64 == 1u64,
{
    k.data().as_ffi()
}

/// Calls `slotmap::KeyData::from_ffi` and turns the data into a `DefaultKey`. In the slotmap
/// source `from_ffi` keeps the low 32 bits as the index and the high 32 bits with the lowest bit
/// set as the version, and `as_ffi` packs them back, so the key's 64-bit form is `v` with bit 32
/// set; that is what the contract claims.
#[verifier::external_body]
fn key_from_ffi(v: u64) -> (k: DefaultKey)
    ensures
        key_ffi(k) == v | 0x1_0000_0000u64,
{
    DefaultKey::from(KeyData::from_ffi(v))
}

/// Opaque node handle: high 20 bits slot index, low 12 bits generation.
/// `0xFFFF_FFFF` is the invalid handle.
#[derive(Debug, Clone, Copy, PartialEq, Eq, Hash)]
pub struct NodeId(pub u32);

impl NodeId {
    /// The invalid handle.
    pub fn invalid() -> (id: NodeId)
        ensures
            id.0 == 0xFFFF_FFFF,
    {
        NodeId(0xFFFF_FFFF)
    }

    /// Slot index of a raw handle value.
    pub open spec fn spec_index(raw: u32) -> nat {
        (raw >> 12u32) as nat
    }

    /// Generation of a raw handle value.
    pub open spec fn spec_gen(raw: u32) -> nat {
        (raw & 0xFFFu32) as nat
    }

    /// The handle is not the invalid sentinel.
    pub fn is_valid(self) -> (b: bool)
        ensures
            b == (self.0 != 0xFFFF_FFFF),
    {
        self.0 != 0xFFFF_FFFF
    }

    /// Slot index (high 20 bits).
    pub fn index(self) -> (i: usize)
        ensures
            i == Self::spec_index(self.0),
    {
        (self.0 >> 12u32) as usize
    }

    /// Generation (low 12 bits).
    pub fn gen(self) -> (g: u16)
        ensures
            g == Self::spec_gen(self.0),
    {
        let raw = self.0;
        let g = raw & 0xFFFu32;
        assert(g <= 0xFFF) by (bit_vector)
            requires
                g == raw & 0xFFFu32,
        ;
        g as u16
    }

    /// Builds the handle of slot `index` and generation `gen`.
    pub fn from_parts(index: u32, gen: u32) -> (id: NodeId)
        requires
            index < 0x10_0000,
            gen < 0x1000,
        ensures
            Self::spec_index(id.0) == index,
            Self::spec_gen(id.0) == gen,
    {
        let raw = (index << 12u32) | gen;
        proof {
            lemma_parts_roundtrip(index, gen);
        }
        NodeId(raw)
    }
}

impl NodeId {
    /// The handle of a slotmap key given as its 64-bit form: the low 32 bits are the slot index,
    /// the low 12 bits of the high 32 the generation.
    pub open spec fn spec_from_ffi(ffi: u64) -> u32 {
        (((ffi & 0xFFFF_FFFFu64) as u32) << 12u32) | (((ffi >> 32u64) as u32) & 0xFFFu32)
    }

    /// The 64-bit key form of a handle: generation in the high 32 bits, slot index in the low 32.
    pub open spec fn spec_to_ffi(raw: u32) -> u64 {
        (((raw & 0xFFFu32) as u64) << 32u64) | ((raw >> 12u32) as u64)
    }

    /// The handle of a key in its 64-bit form.
    pub fn from_ffi(ffi: u64) -> (id: NodeId)
        ensures
            id.0 == Self::spec_from_ffi(ffi),
    {
        let idx = (ffi & 0xFFFF_FFFFu64) as u32;
        let version = (ffi >> 32u64) as u32;
        NodeId((idx << 12u32) | (version & 0xFFFu32))
    }

    /// The 64-bit key form of the handle.
    pub fn to_ffi(self) -> (v: u64)
        ensures
            v == Self::spec_to_ffi(self.0),
    {
        let idx = (self.0 >> 12u32) as u64;
        let version = (self.0 & 0xFFFu32) as u64;
        (version << 32u64) | idx
    }

    /// The handle of a slotmap key: its slot index and the low 12 bits of its version, which
    /// slotmap keeps odd.
    pub fn from_key(k: DefaultKey) -> (id: NodeId)
        ensures
            id.0 == Self::spec_from_ffi(key_ffi(k)),
            exists|f: u64| (f >> 32u64) & 1u64 == 1u64 && id.0 == #[trigger] Self::spec_from_ffi(f),
            Self::spec_gen(id.0) % 2 == 1,
    {
        let f = key_to_ffi(k);
        let id = Self::from_ffi(f);
        proof {
            let raw = id.0;
            assert(raw & 1u32 == 1u32) by (bit_vector)
                requires
                    (f >> 32u64) & 1u64 == 1u64,
                    raw == (((f & 0xFFFF_FFFFu64) as u32) << 12u32) | (((f >> 32u64) as u32) & 0xFFFu32),
            ;
            assert((raw & 0xFFFu32) % 2 == 1) by (bit_vector)
                requires
                    raw & 1u32 == 1u32,
            ;
        }
        id
    }

    /// The slotmap key of the handle, built from its 64-bit form: the key's own 64-bit form is the
    /// handle's, with the lowest version bit set.
    pub fn to_key(self) -> (k: DefaultKey)
        ensures
            key_ffi(k) == Self::spec_to_ffi(self.0) | 0x1_0000_0000u64,
    {
        key_from_ffi(self.to_ffi())
    }
}

/// A handle turned into its 64-bit key form and back is unchanged.
pub proof fn law_ffi_roundtrip(raw: u32)
    ensures
        NodeId::spec_from_ffi(NodeId::spec_to_ffi(raw)) == raw,
{
    let f = NodeId::spec_to_ffi(raw);
    let g = NodeId::spec_from_ffi(f);
    assert(g == raw) by (bit_vector)
        requires
            f == (((raw & 0xFFFu32) as u64) << 32u64) | ((raw >> 12u32) as u64),
            g == (((f & 0xFFFF_FFFFu64) as u32) << 12u32) | (((f >> 32u64) as u32) & 0xFFFu32),
    ;
}

/// Index and generation packed into a handle read back unchanged.
pub proof fn lemma_parts_roundtrip(index: u32, gen: u32)
    requires
        index < 0x10_0000,
        gen < 0x1000,
    ensures
        ((index << 12u32) | gen) >> 12u32 == index,
        ((index << 12u32) | gen) & 0xFFFu32 == gen,
{
    assert(((index << 12u32) | gen) >> 12u32 == index) by (bit_vector)
        requires
            index < 0x10_0000,
            gen < 0x1000,
    ;
    assert(((index << 12u32) | gen) & 0xFFFu32 == gen) by (bit_vector)
        requires
            gen < 0x1000,
    ;
}

/// What a node is: a container, a text leaf, an image, or a button.
#[derive(Debug, Clone)]
pub enum NodeKind {
    Container,
    Text { content: String },
    Image { src: String },
    Button,
}

impl Default for NodeKind {
    fn default() -> (k: Self)
        ensures
            k is Container,
    {
        NodeKind::Container
    }
}

/// Error text for a tag outside the node whitelist.
pub open spec fn unknown_tag_message(tag: Seq<char>) -> Seq<char> {
    "unknown kind tag: "@ + tag + "（围栏白名单：div/button/img/span）"@
}

/// Maps a tag of the whitelist to a node kind: `div` container, `button` button, `img` image
/// with empty source, `span` text with empty content. Any other tag is an error.
pub fn kind_from_tag(tag: &str) -> (r: Result<NodeKind, String>)
    ensures
        tag@ == "div"@ ==> r matches Ok(NodeKind::Container),
        tag@ == "button"@ ==> r matches Ok(NodeKind::Button),
        tag@ == "img"@ ==> (r matches Ok(NodeKind::Image { src }) && src@.len() == 0),
        tag@ == "span"@ ==> (r matches Ok(NodeKind::Text { content }) && content@.len() == 0),
        (tag@ != "div"@ && tag@ != "button"@ && tag@ != "img"@ && tag@ != "span"@) ==> (r matches Err(e)
            && e@ == unknown_tag_message(tag@)),
{
    proof {
        reveal_strlit("div");
        reveal_strlit("button");
        reveal_strlit("img");
        reveal_strlit("span");
        assert("div"@ != "button"@ && "div"@ != "img"@ && "div"@ != "span"@) by {
            assert("div"@.len() == 3 && "button"@.len() == 6 && "span"@.len() == 4);
            assert("div"@[0] != "img"@[0]);
        }
        assert("button"@ != "img"@ && "button"@ != "span"@ && "img"@ != "span"@) by {
            assert("img"@.len() == 3 && "button"@.len() == 6 && "span"@.len() == 4);
        }
    }
    let t = String::from_str(tag);
    if t == String::from_str("div") {
        Ok(NodeKind::Container)
    } else if t == String::from_str("button") {
        Ok(NodeKind::Button)
    } else if t == String::from_str("img") {
        Ok(NodeKind::Image { src: String::new() })
    } else if t == String::from_str("span") {
        Ok(NodeKind::Text { content: String::new() })
    } else {
        let mut e = String::from_str("unknown kind tag: ");
        e.append(tag);
        e.append("（围栏白名单：div/button/img/span）");
        Err(e)
    }
}

/// Sets the content of a text node and marks its text dirty. Any other kind is refused and
/// nothing changes.
pub fn set_text(kind: &mut NodeKind, dirty_text: &mut bool, text: &str) -> (r: Result<(), String>)
    ensures
        *old(kind) is Text ==> r is Ok && (*final(kind) matches NodeKind::Text { content } && content@ == text@) && *final(dirty_text),
        !(*old(kind) is Text) ==> (r matches Err(e) && e@ == "set_text 只对 Text 节点生效"@) && *final(kind) == *old(kind)
            && *final(dirty_text) == *old(dirty_text),
{
    match kind {
        NodeKind::Text { .. } => {
            *kind = NodeKind::Text { content: String::from_str(text) };
            *dirty_text = true;
            Ok(())
        },
        _ => Err(String::from_str("set_text 只对 Text 节点生效")),
    }
}

/// Sets the source of an image node and marks its mesh dirty. Any other kind is refused and
/// nothing changes.
pub fn set_src(kind: &mut NodeKind, dirty_mesh: &mut bool, src: &str) -> (r: Result<(), String>)
    ensures
        *old(kind) is Image ==> r is Ok && (*final(kind) matches NodeKind::Image { src: s } && s@ == src@) && *final(dirty_mesh),
        !(*old(kind) is Image) ==> (r matches Err(e) && e@ == "set_src 只对 Image 节点生效"@) && *final(kind) == *old(kind)
            && *final(dirty_mesh) == *old(dirty_mesh),
{
    match kind {
        NodeKind::Image { .. } => {
            *kind = NodeKind::Image { src: String::from_str(src) };
            *dirty_mesh = true;
            Ok(())
        },
        _ => Err(String::from_str("set_src 只对 Image 节点生效")),
    }
}

} // verus!
