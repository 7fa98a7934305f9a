//! Which GPU the engine can use, by the list of graphics adapters.
use vstd::prelude::*;

use crate::text::{decimal_text, owned, push_text};
use crate::text;

verus! {

/// NVIDIA's number among the makers of adapters.
pub const VENDOR_ID_NVIDIA: u32 = 0x10DE;

/// The flag of an adapter that is no hardware.
pub const ADAPTER_FLAG_SOFTWARE: u32 = 2;

/// A graphics adapter.
#[derive(Debug, PartialEq, Eq)]
pub struct DxgiAdapter {
    pub vendor_id: u32,
    pub description: String,
    /// It is no hardware.
    pub software: bool,
}

/// What a `DxgiAdapter` says.
pub struct Adapter {
    pub vendor_id: u32,
    pub description: Seq<char>,
    pub software: bool,
}

impl View for DxgiAdapter {
    type V = Adapter;

    open spec fn view(&self) -> Adapter {
        Adapter {
            vendor_id: self.vendor_id,
            description: self.description@,
            software: self.software,
        }
    }
}

/// What the adapters say.
pub open spec fn adapters_of(v: Seq<DxgiAdapter>) -> Seq<Adapter> {
    Seq::new(v.len(), |i: int| v[i]@)
}

/// Which GPU can be used.
#[derive(Debug, PartialEq, Eq)]
pub enum IrodoriPick {
    /// One by NVIDIA.
    Found { name: String },
    /// There is one, but none by NVIDIA.
    NotNvidia { name: String },
    /// There is none.
    NoHardwareGpu,
}

/// What an `IrodoriPick` says.
pub enum Pick {
    Found(Seq<char>),
    NotNvidia(Seq<char>),
    NoHardwareGpu,
}

impl View for IrodoriPick {
    type V = Pick;

    open spec fn view(&self) -> Pick {
        match self {
            IrodoriPick::Found { name } => Pick::Found(name@),
            IrodoriPick::NotNvidia { name } => Pick::NotNvidia(name@),
            IrodoriPick::NoHardwareGpu => Pick::NoHardwareGpu,
        }
    }
}

/// The first adapter from the `i`-th on that is hardware, and by NVIDIA where
/// that is asked for.
pub open spec fn first_hardware(a: Seq<Adapter>, nvidia: bool, i: int) -> Option<Seq<char>>
    decreases a.len() - i,
    when 0 <= i <= a.len()
{
    if i == a.len() {
        None
    } else if !a[i].software && (nvidia ==> a[i].vendor_id == VENDOR_ID_NVIDIA) {
        Some(a[i].description)
    } else {
        first_hardware(a, nvidia, i + 1)
    }
}

/// Which GPU can be used: the first by NVIDIA, wherever it stands in the list;
/// without one, the first piece of hardware is named.
pub open spec fn picked(a: Seq<Adapter>) -> Pick {
    match first_hardware(a, true, 0) {
        Some(name) => Pick::Found(name),
        None => match first_hardware(a, false, 0) {
            Some(name) => Pick::NotNvidia(name),
            None => Pick::NoHardwareGpu,
        },
    }
}

fn find_hardware(adapters: &Vec<DxgiAdapter>, nvidia: bool) -> (r: Option<usize>)
    ensures
        (match r {
            Some(k) => Some(adapters@[k as int].description@),
            None => None,
        }) == first_hardware(adapters_of(adapters@), nvidia, 0),
        r matches Some(k) ==> k < adapters@.len(),
{
    let ghost a = adapters_of(adapters@);
    let mut i: usize = 0;
    while i < adapters.len()
        invariant
            i <= adapters@.len(),
            a == adapters_of(adapters@),
            first_hardware(a, nvidia, 0) == first_hardware(a, nvidia, i as int),
        decreases adapters@.len() - i,
    {
        assert(a[i as int] == adapters@[i as int]@);
        if !adapters[i].software && (!nvidia || adapters[i].vendor_id == VENDOR_ID_NVIDIA) {
            return Some(i);
        }
        i += 1;
    }
    None
}

/// Says which GPU can be used.
pub fn pick_irodori_gpu(adapters: &Vec<DxgiAdapter>) -> (r: IrodoriPick)
    ensures
        r@ == picked(adapters_of(adapters@)),
{
    match find_hardware(adapters, true) {
        Some(k) => IrodoriPick::Found { name: owned(adapters[k].description.as_str()) },
        None => match find_hardware(adapters, false) {
            Some(k) => IrodoriPick::NotNvidia { name: owned(adapters[k].description.as_str()) },
            None => IrodoriPick::NoHardwareGpu,
        },
    }
}

/// The first half of a pair in UTF-16.
pub open spec fn is_high(u: u16) -> bool {
    0xD800 <= u && u <= 0xDBFF
}

/// The second half of a pair in UTF-16.
pub open spec fn is_low(u: u16) -> bool {
    0xDC00 <= u && u <= 0xDFFF
}

/// The text of UTF-16 from the `i`-th unit on, up to a zero. Half a pair stands
/// for the replacement character.
pub open spec fn utf16_text(u: Seq<u16>, i: int) -> Seq<char>
    decreases u.len() - i,
    when 0 <= i <= u.len()
{
    if i == u.len() || u[i] == 0 {
        Seq::empty()
    } else if !is_high(u[i]) && !is_low(u[i]) {
        seq![u[i] as char] + utf16_text(u, i + 1)
    } else if is_high(u[i]) && i + 1 < u.len() && is_low(u[i + 1]) {
        seq![(0x10000 + (u[i] - 0xD800) * 0x400 + (u[i + 1] - 0xDC00)) as char] + utf16_text(
            u,
            i + 2,
        )
    } else {
        seq!['\u{FFFD}'] + utf16_text(u, i + 1)
    }
}

/// Decodes UTF-16 up to a zero.
pub fn decode_utf16(units: &Vec<u16>) -> (r: String)
    ensures
        r@ == utf16_text(units@, 0),
{
    let mut out = String::new();
    let mut i: usize = 0;
    assert(out@ + utf16_text(units@, 0) =~= utf16_text(units@, 0));
    while i < units.len() && units[i] != 0
        invariant
            i <= units@.len(),
            out@ + utf16_text(units@, i as int) == utf16_text(units@, 0),
        decreases units@.len() - i,
    {
        let ghost before = out@;
        let u: u16 = units[i];
        let high = 0xD800 <= u && u <= 0xDBFF;
        let low = 0xDC00 <= u && u <= 0xDFFF;
        if high && i + 1 < units.len() && 0xDC00 <= units[i + 1] && units[i + 1] <= 0xDFFF {
            let code: u32 = 0x10000 + (u as u32 - 0xD800) * 0x400 + (units[i + 1] as u32 - 0xDC00);
            let c = match char::from_u32(code) {
                Some(c) => c,
                None => '\u{FFFD}',
            };
            out.push(c);
            assert(before + (seq![c] + utf16_text(units@, i + 2)) =~= out@ + utf16_text(
                units@,
                i + 2,
            ));
            i += 2;
        } else if high || low {
            out.push('\u{FFFD}');
            assert(before + (seq!['\u{FFFD}'] + utf16_text(units@, i + 1)) =~= out@ + utf16_text(
                units@,
                i + 1,
            ));
            i += 1;
        } else {
            let c = match char::from_u32(u as u32) {
                Some(c) => c,
                None => '\u{FFFD}',
            };
            out.push(c);
            assert(before + (seq![c] + utf16_text(units@, i + 1)) =~= out@ + utf16_text(
                units@,
                i + 1,
            ));
            i += 1;
        }
    }
    assert(out@ + Seq::<char>::empty() =~= out@);
    out
}

/// An adapter as the system describes it.
#[derive(Debug, PartialEq, Eq)]
pub struct AdapterDesc {
    pub vendor_id: u32,
    /// The description in UTF-16, ended by a zero.
    pub description: Vec<u16>,
    pub flags: u32,
}

/// What came of going through the adapters.
#[derive(Debug, PartialEq, Eq)]
pub enum Enumeration {
    /// It could not be begun; says why.
    NoFactory(String),
    /// The adapters met, each with its description where there was one, and why
    /// it broke off, where it did not reach the end.
    Adapters { found: Vec<Option<AdapterDesc>>, failure: Option<String> },
}

/// The adapter that a description is of.
pub open spec fn described(d: AdapterDesc) -> Adapter {
    Adapter {
        vendor_id: d.vendor_id,
        description: utf16_text(d.description@, 0),
        software: d.flags & ADAPTER_FLAG_SOFTWARE != 0,
    }
}

/// Those of the first `n` adapters that have a description.
pub open spec fn described_upto(f: Seq<Option<AdapterDesc>>, n: int) -> Seq<Adapter>
    decreases n,
{
    if n <= 0 {
        Seq::empty()
    } else {
        match f[n - 1] {
            Some(d) => described_upto(f, n - 1).push(described(d)),
            None => described_upto(f, n - 1),
        }
    }
}

/// Lists the adapters. One without a description is left out.
pub fn list_adapters(e: &Enumeration) -> (r: Result<Vec<DxgiAdapter>, String>)
    ensures
        match *e {
            Enumeration::NoFactory(why) => r is Err && r->Err_0@ == "DXGI factory 作成失敗: "@ + why@,
            Enumeration::Adapters { found, failure } => match failure {
                Some(why) => r is Err && r->Err_0@ == "EnumAdapters1("@ + text::decimal(
                    found@.len(),
                ) + ") 失敗: "@ + why@,
                None => r is Ok && adapters_of(r->Ok_0@) == described_upto(
                    found@,
                    found@.len() as int,
                ),
            },
        },
{
    match e {
        Enumeration::NoFactory(why) => {
            let mut out = owned("DXGI factory 作成失敗: ");
            push_text(&mut out, why.as_str());
            Err(out)
        },
        Enumeration::Adapters { found, failure } => {
            match failure {
                Some(why) => {
                    let mut out = owned("EnumAdapters1(");
                    push_text(&mut out, decimal_text(found.len() as u64).as_str());
                    push_text(&mut out, ") 失敗: ");
                    push_text(&mut out, why.as_str());
                    return Err(out);
                },
                None => {},
            }
            let list = described_adapters(found);
            Ok(list)
        },
    }
}

fn described_adapters(found: &Vec<Option<AdapterDesc>>) -> (r: Vec<DxgiAdapter>)
    ensures
        adapters_of(r@) == described_upto(found@, found@.len() as int),
{
    let mut out: Vec<DxgiAdapter> = Vec::new();
    let mut i: usize = 0;
    assert(adapters_of(out@) =~= described_upto(found@, 0));
    while i < found.len()
        invariant
            i <= found@.len(),
            adapters_of(out@) == described_upto(found@, i as int),
        decreases found@.len() - i,
    {
        let ghost before = adapters_of(out@);
        match &found[i] {
            Some(d) => {
                out.push(
                    DxgiAdapter {
                        vendor_id: d.vendor_id,
                        description: decode_utf16(&d.description),
                        software: d.flags & ADAPTER_FLAG_SOFTWARE != 0,
                    },
                );
                assert(adapters_of(out@) =~= before.push(described(*d)));
            },
            None => {},
        }
        i += 1;
    }
    out
}

/// One by NVIDIA that is hardware is found wherever it stands, and nothing else
/// ever is: a piece of software never counts.
pub proof fn found_iff_nvidia_hardware(a: Seq<Adapter>)
    ensures
        picked(a) is Found <==> exists|i: int|
            0 <= i < a.len() && !(#[trigger] a[i]).software && a[i].vendor_id == VENDOR_ID_NVIDIA,
        picked(a) is NoHardwareGpu <==> forall|i: int|
            0 <= i < a.len() ==> (#[trigger] a[i]).software,
{
    lemma_first_hardware(a, true, 0);
    lemma_first_hardware(a, false, 0);
}

proof fn lemma_first_hardware(a: Seq<Adapter>, nvidia: bool, i: int)
    requires
        0 <= i <= a.len(),
    ensures
        first_hardware(a, nvidia, i) is Some <==> exists|k: int|
            i <= k < a.len() && !(#[trigger] a[k]).software && (nvidia ==> a[k].vendor_id
                == VENDOR_ID_NVIDIA),
    decreases a.len() - i,
{
    if i < a.len() {
        lemma_first_hardware(a, nvidia, i + 1);
        if !a[i].software && (nvidia ==> a[i].vendor_id == VENDOR_ID_NVIDIA) {
            assert(!a[i].software);
        } else if first_hardware(a, nvidia, i + 1) is Some {
            let k = choose|k: int|
                i + 1 <= k < a.len() && !(#[trigger] a[k]).software && (nvidia ==> a[k].vendor_id
                    == VENDOR_ID_NVIDIA);
            assert(!a[k].software);
        }
    }
}

proof fn lemma_hardware_at(a: Seq<Adapter>, nvidia: bool, i: int, k: int)
    requires
        0 <= i <= k < a.len(),
        !a[k].software && (nvidia ==> a[k].vendor_id == 0x10DE),
        forall|j: int|
            i <= j < k ==> (#[trigger] a[j]).software || (nvidia && a[j].vendor_id != 0x10DE),
    ensures
        first_hardware(a, nvidia, i) == Some(a[k].description),
    decreases k - i,
{
    if i < k {
        lemma_hardware_at(a, nvidia, i + 1, k);
    }
}

/// The first adapter by NVIDIA that is hardware is picked; where there is none, the
/// first that is hardware is named.
pub proof fn the_first_adapter_is_picked(a: Seq<Adapter>, k: int)
    requires
        0 <= k < a.len(),
        !a[k].software,
    ensures
        a[k].vendor_id == 0x10DE && (forall|j: int|
            0 <= j < k ==> (#[trigger] a[j]).software || a[j].vendor_id != 0x10DE) ==> picked(a)
            == Pick::Found(a[k].description),
        (forall|j: int|
            0 <= j < a.len() ==> (#[trigger] a[j]).software || a[j].vendor_id != 0x10DE) && (
        forall|j: int| 0 <= j < k ==> (#[trigger] a[j]).software) ==> picked(a) == Pick::NotNvidia(
            a[k].description,
        ),
{
    if a[k].vendor_id == 0x10DE && (forall|j: int|
        0 <= j < k ==> (#[trigger] a[j]).software || a[j].vendor_id != 0x10DE) {
        lemma_hardware_at(a, true, 0, k);
    }
    if forall|j: int| 0 <= j < k ==> (#[trigger] a[j]).software {
        lemma_hardware_at(a, false, 0, k);
        found_iff_nvidia_hardware(a);
    }
}

/// A description is read up to its first zero, each unit as its character, two that
/// make up a pair as one.
pub proof fn descriptions_are_read_unit_by_unit(u: Seq<u16>, i: int)
    requires
        0 <= i < u.len(),
    ensures
        u[i] == 0 ==> utf16_text(u, i).len() == 0,
        u[i] != 0 && !(0xD800 <= u[i] <= 0xDFFF) ==> utf16_text(u, i) == seq![u[i] as char]
            + utf16_text(u, i + 1),
        0xD800 <= u[i] <= 0xDBFF && i + 1 < u.len() && 0xDC00 <= u[i + 1] <= 0xDFFF ==> utf16_text(
            u,
            i,
        ) == seq![(0x10000 + (u[i] - 0xD800) * 0x400 + (u[i + 1] - 0xDC00)) as char] + utf16_text(
            u,
            i + 2,
        ),
        utf16_text(u, u.len() as int).len() == 0,
{
}

/// Every adapter that has a description is listed, in its order.
pub proof fn every_described_adapter_is_listed(f: Seq<Option<AdapterDesc>>, n: int)
    requires
        0 <= n <= f.len(),
    ensures
        described_upto(f, n) == f.take(n).filter(|x: Option<AdapterDesc>| x is Some).map_values(
            |x: Option<AdapterDesc>| described(x->0),
        ),
    decreases n,
{
    reveal(Seq::filter);
    let p = |x: Option<AdapterDesc>| x is Some;
    let g = |x: Option<AdapterDesc>| described(x->0);
    if n > 0 {
        every_described_adapter_is_listed(f, n - 1);
        assert(f.take(n).drop_last() =~= f.take(n - 1));
        let rest = f.take(n - 1).filter(p);
        if f[n - 1] is Some {
            assert(f.take(n).filter(p) =~= rest.push(f[n - 1]));
            assert(rest.push(f[n - 1]).map_values(g) =~= rest.map_values(g).push(g(f[n - 1])));
        }
        assert(described_upto(f, n) =~= f.take(n).filter(p).map_values(g));
    } else {
        assert(described_upto(f, n) =~= f.take(n).filter(p).map_values(g));
    }
}

} // verus!
