//! The section reader and the decoded data model.
use crate::bytes::{as_i16_be, be_i16, be_u16};
use crate::channel::PsdLayerChannel;
use crate::error::{len_size, DecodeError, DocumentFormat};
use crate::layer::{
    be_len, distinct_kinds, lemma_record_layout, read_layer_record, read_len, record_spec,
    RECT_SIZE,
};
use vstd::prelude::*;
use vstd::slice::{slice_subrange, slice_to_vec};

verus! {

/// A decoded layer: its channels, each with its data, in the order of the record.
pub type LayerModel = Seq<(PsdLayerChannel, Seq<u8>)>;

/// A decoded section: its layers, each under its name.
pub type SectionModel = Seq<(Seq<char>, LayerModel)>;

/// Whether an entry of `ls` is named `name`.
pub open spec fn has_name<T>(ls: Seq<(Seq<char>, T)>, name: Seq<char>) -> bool {
    exists|i: int| 0 <= i < ls.len() && #[trigger] ls[i].0 == name
}

/// The position of an entry of `ls` named `name`, where there is one.
pub open spec fn name_index<T>(ls: Seq<(Seq<char>, T)>, name: Seq<char>) -> int {
    choose|i: int| 0 <= i < ls.len() && #[trigger] ls[i].0 == name
}

/// Whether the names of `ls` are pairwise distinct.
pub open spec fn distinct_names<T>(ls: Seq<(Seq<char>, T)>) -> bool {
    forall|i: int, j: int| 0 <= i < j < ls.len() ==> #[trigger] ls[i].0 != #[trigger] ls[j].0
}

/// `ls` with the layer `d` under `name`: a layer of the same name is replaced, else the
/// layer is added.
pub open spec fn insert_layer(ls: SectionModel, name: Seq<char>, d: LayerModel) -> SectionModel {
    if has_name(ls, name) {
        ls.update(name_index(ls, name), (name, d))
    } else {
        ls.push((name, d))
    }
}

/// The data of the first `n` channels of `chs`, read one after the other from `p`,
/// with the offset just past them; `None` where the buffer ends too early.
pub open spec fn channel_data_spec(
    b: Seq<u8>,
    p: int,
    chs: Seq<(PsdLayerChannel, u64)>,
    n: nat,
) -> Option<(LayerModel, int)>
    decreases n,
{
    if n == 0 {
        Some((seq![], p))
    } else {
        match channel_data_spec(b, p, chs, (n - 1) as nat) {
            None => None,
            Some((d, q)) => {
                let l = chs[n - 1].1 as int;
                if q + l > b.len() {
                    None
                } else {
                    Some((d.push((chs[n - 1].0, b.subrange(q, q + l))), q + l))
                }
            },
        }
    }
}

/// The first `k` layers, the first of which starts at `start`: each is a layer record
/// followed by the data of its channels, and the next layer starts past that data.
/// Yields the layers by name, the names of the `k` records in order, and the offset
/// just past the last layer.
pub open spec fn layers_spec(b: Seq<u8>, start: int, f: DocumentFormat, k: nat) -> Result<
    (SectionModel, Seq<Seq<char>>, int),
    DecodeError,
>
    decreases k,
{
    if k == 0 {
        Ok((seq![], seq![], start))
    } else {
        match layers_spec(b, start, f, (k - 1) as nat) {
            Err(e) => Err(e),
            Ok((ls, ns, p)) => match record_spec(b, p, f) {
                Err(e) => Err(e),
                Ok((name, chs, end)) => match channel_data_spec(b, end, chs, chs.len()) {
                    None => Err(DecodeError::TruncatedInput),
                    Some((d, q)) => Ok((insert_layer(ls, name, d), ns.push(name), q)),
                },
            },
        }
    }
}

/// The layer count field of a section.
pub open spec fn declared_layer_count(b: Seq<u8>, f: DocumentFormat) -> int {
    be_i16(b, 2 * len_size(f))
}

/// Decoding of a whole section: the section length (which the buffer must hold), the
/// layer info length, the layer count, then that many layers. Yields the layers and
/// the offset just past the last byte read.
pub open spec fn section_spec(b: Seq<u8>, f: DocumentFormat) -> Result<
    (SectionModel, int),
    DecodeError,
> {
    let w = len_size(f);
    if w > b.len() {
        Err(DecodeError::TruncatedInput)
    } else if be_len(b, 0, f) > b.len() || 2 * w + 2 > b.len() {
        Err(DecodeError::TruncatedInput)
    } else if declared_layer_count(b, f) < 0 {
        Err(DecodeError::InvalidLayerCount { count: declared_layer_count(b, f) as i16 })
    } else {
        match layers_spec(b, 2 * w + 2, f, declared_layer_count(b, f) as nat) {
            Err(e) => Err(e),
            Ok((ls, _, end)) => Ok((ls, end)),
        }
    }
}

/// The names of the layer records of a section, in order, where its layers decode.
pub open spec fn record_names(b: Seq<u8>, f: DocumentFormat) -> Seq<Seq<char>> {
    match layers_spec(b, 2 * len_size(f) + 2, f, declared_layer_count(b, f) as nat) {
        Ok((_, ns, _)) => ns,
        Err(_) => seq![],
    }
}

/// The layers of `v` as values.
pub open spec fn layers_model(v: Seq<(String, PsdLayer)>) -> SectionModel {
    v.map_values(|l: (String, PsdLayer)| (l.0@, l.1@))
}

/// Once the layers fail, reading more layers fails the same way.
proof fn lemma_layers_err_stays(b: Seq<u8>, start: int, f: DocumentFormat, n: nat, m: nat)
    requires
        n <= m,
        layers_spec(b, start, f, n) is Err,
    ensures
        layers_spec(b, start, f, m) == layers_spec(b, start, f, n),
    decreases m - n,
{
    if n < m {
        lemma_layers_err_stays(b, start, f, n, (m - 1) as nat);
    }
}

/// Once the channel data runs past the buffer, reading more of it does too.
proof fn lemma_channel_data_none_stays(
    b: Seq<u8>,
    p: int,
    chs: Seq<(PsdLayerChannel, u64)>,
    n: nat,
    m: nat,
)
    requires
        n <= m,
        channel_data_spec(b, p, chs, n) is None,
    ensures
        channel_data_spec(b, p, chs, m) is None,
    decreases m - n,
{
    if n < m {
        lemma_channel_data_none_stays(b, p, chs, n, (m - 1) as nat);
    }
}

/// Reading the data of `n` channels gives one payload per channel, of the kind and the
/// length that the directory declares.
pub(crate) proof fn lemma_channel_data_ok(
    b: Seq<u8>,
    p: int,
    chs: Seq<(PsdLayerChannel, u64)>,
    n: nat,
)
    requires
        n <= chs.len(),
        p >= 0,
    ensures
        channel_data_spec(b, p, chs, n) matches Some((d, q)) ==> {
            &&& d.len() == n
            &&& forall|i: int|
                0 <= i < n ==> (#[trigger] d[i]).0 == chs[i].0 && d[i].1.len() == chs[i].1
            &&& p <= q
            &&& q <= b.len() || n == 0
        },
    decreases n,
{
    if n > 0 {
        lemma_channel_data_ok(b, p, chs, (n - 1) as nat);
        if let Some((d, q)) = channel_data_spec(b, p, chs, n) {
            let prev = channel_data_spec(b, p, chs, (n - 1) as nat)->Some_0.0;
            assert forall|i: int| 0 <= i < n implies (#[trigger] d[i]).0 == chs[i].0 && d[i].1.len()
                == chs[i].1 by {
                if i < n - 1 {
                    assert(d[i] == prev[i]);
                }
            }
        }
    }
}

/// Inserting a layer keeps the names distinct, puts the layer under its name, and
/// adds an entry exactly when the name was new.
proof fn lemma_insert_layer(ls: SectionModel, name: Seq<char>, d: LayerModel)
    requires
        distinct_names(ls),
    ensures
        ({
            let r = insert_layer(ls, name, d);
            &&& distinct_names(r)
            &&& has_name(r, name)
            &&& r[name_index(r, name)] == (name, d)
            &&& r.len() == if has_name(ls, name) { ls.len() } else { ls.len() + 1 }
            &&& forall|x: Seq<char>| has_name(r, x) <==> (has_name(ls, x) || x == name)
            &&& forall|j: int| 0 <= j < r.len() ==> (#[trigger] r[j]).1 == d || exists|i: int|
                0 <= i < ls.len() && r[j] == #[trigger] ls[i]
        }),
{
    let r = insert_layer(ls, name, d);
    if has_name(ls, name) {
        let k = name_index(ls, name);
        assert(r[k].0 == name);
        assert forall|x: Seq<char>| has_name(r, x) <==> (has_name(ls, x) || x == name) by {
            if has_name(ls, x) {
                let i = choose|i: int| 0 <= i < ls.len() && #[trigger] ls[i].0 == x;
                if i == k {
                    assert(r[k].0 == x);
                } else {
                    assert(r[i].0 == x);
                }
            }
            if has_name(r, x) {
                let i = choose|i: int| 0 <= i < r.len() && #[trigger] r[i].0 == x;
                if i != k {
                    assert(ls[i].0 == x);
                }
            }
        }
        assert forall|j: int| 0 <= j < r.len() implies (#[trigger] r[j]).1 == d || exists|i: int|
            0 <= i < ls.len() && r[j] == #[trigger] ls[i] by {
            if j != k {
                assert(r[j] == ls[j]);
            }
        }
    } else {
        let k = ls.len() as int;
        assert(r[k].0 == name);
        assert forall|x: Seq<char>| has_name(r, x) <==> (has_name(ls, x) || x == name) by {
            if has_name(ls, x) {
                let i = choose|i: int| 0 <= i < ls.len() && #[trigger] ls[i].0 == x;
                assert(r[i].0 == x);
            }
            if has_name(r, x) {
                let i = choose|i: int| 0 <= i < r.len() && #[trigger] r[i].0 == x;
                if i != k {
                    assert(ls[i].0 == x);
                }
            }
        }
        assert forall|j: int| 0 <= j < r.len() implies (#[trigger] r[j]).1 == d || exists|i: int|
            0 <= i < ls.len() && r[j] == #[trigger] ls[i] by {
            if j != k {
                assert(r[j] == ls[j]);
            }
        }
    }
    let k = name_index(r, name);
    assert(0 <= k < r.len() && r[k].0 == name);
}

/// `k` decoded layers have distinct names, which are exactly the names of the `k`
/// records, so that there are `k` layers where those names are distinct; each layer
/// has channels of distinct kinds, and all lies within the buffer.
proof fn lemma_layers_ok(b: Seq<u8>, start: int, f: DocumentFormat, k: nat)
    requires
        0 <= start,
    ensures
        layers_spec(b, start, f, k) matches Ok((ls, ns, p)) ==> {
            &&& ns.len() == k
            &&& ls.len() <= k
            &&& (ns.no_duplicates() ==> ls.len() == k)
            &&& distinct_names(ls)
            &&& forall|x: Seq<char>| has_name(ls, x) <==> ns.contains(x)
            &&& forall|j: int| 0 <= j < ls.len() ==> distinct_kinds(#[trigger] ls[j].1)
            &&& start <= p
            &&& (k > 0 ==> p <= b.len())
        },
    decreases k,
{
    if k > 0 {
        lemma_layers_ok(b, start, f, (k - 1) as nat);
        if let Ok((ls, ns, p)) = layers_spec(b, start, f, k) {
            let (ls0, ns0, p0) = layers_spec(b, start, f, (k - 1) as nat)->Ok_0;
            let (name, chs, end) = record_spec(b, p0, f)->Ok_0;
            let d = channel_data_spec(b, end, chs, chs.len())->Some_0.0;
            lemma_record_layout(b, p0, f);
            lemma_channel_data_ok(b, end, chs, chs.len());
            lemma_insert_layer(ls0, name, d);
            assert(ns == ns0.push(name));
            assert forall|x: Seq<char>| has_name(ls, x) <==> ns.contains(x) by {
                if ns0.contains(x) {
                    let i = choose|i: int| 0 <= i < ns0.len() && ns0[i] == x;
                    assert(ns[i] == x);
                }
                if ns.contains(x) && x != name {
                    let i = choose|i: int| 0 <= i < ns.len() && ns[i] == x;
                    assert(ns0[i] == x);
                }
                assert(ns[ns.len() - 1] == name);
            }
            if ns.no_duplicates() {
                assert forall|i: int, j: int| 0 <= i < ns0.len() && 0 <= j < ns0.len() && i != j implies ns0[i]
                    != ns0[j] by {
                    assert(ns[i] == ns0[i] && ns[j] == ns0[j]);
                }
                if ns0.contains(name) {
                    let i = choose|i: int| 0 <= i < ns0.len() && ns0[i] == name;
                    assert(ns[i] == name && ns[ns.len() - 1] == name);
                }
            }
            assert(distinct_kinds(d)) by {
                assert forall|x: int, y: int| 0 <= x < y < d.len() implies #[trigger] d[x].0
                    != #[trigger] d[y].0 by {
                    assert(chs[x].0 != chs[y].0);
                }
            }
            assert forall|j: int| 0 <= j < ls.len() implies distinct_kinds(#[trigger] ls[j].1) by {
                if ls[j].1 != d {
                    let i = choose|i: int| 0 <= i < ls0.len() && ls[j] == #[trigger] ls0[i];
                    assert(distinct_kinds(ls0[i].1));
                }
            }
        }
    }
}

/// A decoded section holds one layer per distinct record name, under pairwise
/// distinct names: exactly as many layers as its header declares where the record
/// names are distinct, fewer where a later layer replaced one of the same name. Each
/// layer has channels of pairwise distinct kinds; the decoder read no byte past the
/// buffer.
pub proof fn lemma_section_layers(b: Seq<u8>, f: DocumentFormat)
    ensures
        section_spec(b, f) matches Ok((ls, end)) ==> {
            &&& record_names(b, f).len() == declared_layer_count(b, f)
            &&& ls.len() <= declared_layer_count(b, f)
            &&& (record_names(b, f).no_duplicates() ==> ls.len() == declared_layer_count(b, f))
            &&& forall|x: Seq<char>| has_name(ls, x) <==> record_names(b, f).contains(x)
            &&& distinct_names(ls)
            &&& forall|j: int| 0 <= j < ls.len() ==> distinct_kinds(#[trigger] ls[j].1)
            &&& end <= b.len()
        },
{
    if section_spec(b, f) is Ok {
        lemma_layers_ok(b, 2 * len_size(f) + 2, f, declared_layer_count(b, f) as nat);
    }
}

/// The layer that a record yields has exactly as many channels as the record's channel
/// count declares, of the kinds and data lengths of its channel entries, and stands
/// under the record's name once the record is read.
pub proof fn lemma_layer_channel_count(b: Seq<u8>, start: int, f: DocumentFormat, j: nat)
    requires
        0 <= start,
        layers_spec(b, start, f, j + 1) is Ok,
    ensures
        layers_spec(b, start, f, j) matches Ok((_, _, p)) && record_spec(b, p, f) matches Ok(
            (name, chs, end),
        ) && ({
            let ls = layers_spec(b, start, f, j + 1)->Ok_0.0;
            let layer = ls[name_index(ls, name)].1;
            &&& chs.len() == be_u16(b, p + RECT_SIZE)
            &&& has_name(ls, name)
            &&& layer.len() == chs.len()
            &&& forall|i: int|
                0 <= i < chs.len() ==> (#[trigger] layer[i]).0 == chs[i].0 && layer[i].1.len()
                    == chs[i].1
        }),
{
    lemma_layers_ok(b, start, f, j);
    let (ls0, _, p) = layers_spec(b, start, f, j)->Ok_0;
    let (name, chs, end) = record_spec(b, p, f)->Ok_0;
    lemma_record_layout(b, p, f);
    lemma_channel_data_ok(b, end, chs, chs.len());
    let d = channel_data_spec(b, end, chs, chs.len())->Some_0.0;
    lemma_insert_layer(ls0, name, d);
}

/// Reads, from `p` on, the data of each channel of `chs` in turn.
fn read_channel_data(bytes: &[u8], p: usize, chs: &Vec<(PsdLayerChannel, u64)>) -> (r: Option<
    (PsdLayer, usize),
>)
    requires
        p <= bytes@.len(),
    ensures
        match channel_data_spec(bytes@, p as int, chs@, chs@.len()) {
            Some((d, q)) => r matches Some((l, e)) && l@ == d && e == q,
            None => r is None,
        },
{
    let len = bytes.len();
    let mut channels: Vec<(PsdLayerChannel, Vec<u8>)> = Vec::new();
    let mut q = p;
    let mut j: usize = 0;
    assert((PsdLayer { channels })@ =~= seq![]);
    while j < chs.len()
        invariant
            j <= chs@.len(),
            q <= len,
            len == bytes@.len(),
            channel_data_spec(bytes@, p as int, chs@, j as nat) == Some(
                ((PsdLayer { channels })@, q as int),
            ),
        decreases chs@.len() - j,
    {
        let ghost before = (PsdLayer { channels })@;
        let l = chs[j].1;
        if l > (len - q) as u64 {
            proof {
                lemma_channel_data_none_stays(bytes@, p as int, chs@, (j + 1) as nat, chs@.len());
            }
            return None;
        }
        let lu = l as usize;
        let data = slice_to_vec(slice_subrange(bytes, q, q + lu));
        channels.push((chs[j].0, data));
        assert((PsdLayer { channels })@ =~= before.push(
            (chs@[j as int].0, bytes@.subrange(q as int, q + lu)),
        ));
        q = q + lu;
        j = j + 1;
    }
    Some((PsdLayer { channels }, q))
}

/// Puts `layer` under `name`, in place of a layer of the same name if there is one.
fn put_layer(layers: &mut Vec<(String, PsdLayer)>, name: String, layer: PsdLayer)
    requires
        distinct_names(layers_model(old(layers)@)),
    ensures
        layers_model(final(layers)@) == insert_layer(layers_model(old(layers)@), name@, layer@),
{
    let ghost m = layers_model(layers@);
    let mut i: usize = 0;
    while i < layers.len()
        invariant
            i <= layers@.len(),
            layers@ == old(layers)@,
            m == layers_model(layers@),
            distinct_names(m),
            forall|j: int| 0 <= j < i ==> layers@[j].0@ != name@,
        decreases layers@.len() - i,
    {
        if layers[i].0 == name {
            proof {
                assert(m[i as int].0 == name@);
                let k = name_index(m, name@);
                assert(0 <= k < m.len() && m[k].0 == name@);
                assert(k == i);
            }
            let ghost lv = layer@;
            layers[i] = (name, layer);
            assert(layers_model(layers@) =~= m.update(i as int, (name@, lv)));
            return;
        }
        i = i + 1;
    }
    assert forall|j: int| 0 <= j < m.len() implies #[trigger] m[j].0 != name@ by {
        assert(layers@[j].0@ != name@);
    }
    let ghost nv = name@;
    let ghost lv = layer@;
    layers.push((name, layer));
    assert(layers_model(layers@) =~= m.push((nv, lv)));
}

/// Information about a layer in a PSD file.
pub struct PsdLayer {
    /// The channels of the layer, stored separately, each with its raw data: the
    /// 2-byte compression method followed by the image data.
    channels: Vec<(PsdLayerChannel, Vec<u8>)>,
}

impl View for PsdLayer {
    type V = LayerModel;

    closed spec fn view(&self) -> LayerModel {
        self.channels@.map_values(|c: (PsdLayerChannel, Vec<u8>)| (c.0, c.1@))
    }
}

impl PsdLayer {
    /// The number of channels of the layer.
    pub fn channel_count(&self) -> (r: usize)
        ensures
            r == self@.len(),
    {
        self.channels.len()
    }

    /// The data of the layer's channel of the given kind: the 2-byte compression method
    /// followed by the image data.
    pub fn channel(&self, kind: PsdLayerChannel) -> (r: Option<&Vec<u8>>)
        ensures
            match r {
                Some(d) => exists|i: int|
                    0 <= i < self@.len() && #[trigger] self@[i] == (kind, d@),
                None => forall|i: int| 0 <= i < self@.len() ==> (#[trigger] self@[i]).0 != kind,
            },
    {
        let mut i: usize = 0;
        while i < self.channels.len()
            invariant
                i <= self.channels@.len(),
                forall|j: int| 0 <= j < i ==> self.channels@[j].0 != kind,
            decreases self.channels@.len() - i,
        {
            if self.channels[i].0 == kind {
                assert(self@[i as int] == (kind, self.channels@[i as int].1@));
                return Some(&self.channels[i].1);
            }
            i = i + 1;
        }
        assert forall|j: int| 0 <= j < self@.len() implies (#[trigger] self@[j]).0 != kind by {
            assert(self.channels@[j].0 != kind);
        }
        None
    }
}

/// The LayerAndMaskInformationSection comes from the bytes in the fourth section of the
/// PSD: its layers, each under its name.
pub struct LayerAndMaskInformationSection {
    layers: Vec<(String, PsdLayer)>,
}

impl View for LayerAndMaskInformationSection {
    type V = SectionModel;

    closed spec fn view(&self) -> SectionModel {
        layers_model(self.layers@)
    }
}

impl LayerAndMaskInformationSection {
    /// The number of layers of the section.
    pub fn layer_count(&self) -> (r: usize)
        ensures
            r == self@.len(),
    {
        self.layers.len()
    }

    /// The layer of the given name.
    pub fn layer(&self, name: &str) -> (r: Option<&PsdLayer>)
        ensures
            match r {
                Some(l) => exists|i: int|
                    0 <= i < self@.len() && #[trigger] self@[i] == (name@, l@),
                None => forall|i: int| 0 <= i < self@.len() ==> (#[trigger] self@[i]).0 != name@,
            },
    {
        let wanted = name.to_owned();
        let mut i: usize = 0;
        while i < self.layers.len()
            invariant
                i <= self.layers@.len(),
                wanted@ == name@,
                forall|j: int| 0 <= j < i ==> self.layers@[j].0@ != name@,
            decreases self.layers@.len() - i,
        {
            if self.layers[i].0 == wanted {
                assert(self@[i as int] == (name@, self.layers@[i as int].1@));
                return Some(&self.layers[i].1);
            }
            i = i + 1;
        }
        assert forall|j: int| 0 <= j < self@.len() implies (#[trigger] self@[j]).0 != name@ by {
            assert(self.layers@[j].0@ != name@);
        }
        None
    }

    /// The names of the layers, in the order in which each name first appears.
    pub fn layer_names(&self) -> (r: Vec<String>)
        ensures
            r@.len() == self@.len(),
            forall|i: int| 0 <= i < r@.len() ==> (#[trigger] r@[i])@ == self@[i].0,
    {
        let mut names: Vec<String> = Vec::new();
        let mut i: usize = 0;
        while i < self.layers.len()
            invariant
                i <= self.layers@.len(),
                names@.len() == i,
                forall|j: int| 0 <= j < i ==> (#[trigger] names@[j])@ == self@[j].0,
            decreases self.layers@.len() - i,
        {
            names.push(self.layers[i].0.clone());
            i = i + 1;
        }
        names
    }

    /// Create a LayerAndMaskInformationSection from the bytes of the corresponding section
    /// of a standard (PSD) document.
    pub fn from_bytes(bytes: &[u8]) -> (r: Result<LayerAndMaskInformationSection, DecodeError>)
        ensures
            match section_spec(bytes@, DocumentFormat::Psd) {
                Ok((ls, _)) => r matches Ok(s) && s@ == ls,
                Err(e) => r == Err::<LayerAndMaskInformationSection, DecodeError>(e),
            },
    {
        Self::from_bytes_in(bytes, DocumentFormat::Psd)
    }

    /// Create a LayerAndMaskInformationSection from the bytes of the corresponding section
    /// of a document in the given layout. Each layer record is followed by the data of
    /// its channels; a layer with the name of an earlier one replaces it.
    pub fn from_bytes_in(bytes: &[u8], format: DocumentFormat) -> (r: Result<
        LayerAndMaskInformationSection,
        DecodeError,
    >)
        ensures
            match section_spec(bytes@, format) {
                Ok((ls, _)) => r matches Ok(s) && s@ == ls,
                Err(e) => r == Err::<LayerAndMaskInformationSection, DecodeError>(e),
            },
    {
        let w = format.length_size();
        let len = bytes.len();
        if w > len {
            return Err(DecodeError::TruncatedInput);
        }
        let section_len = read_len(bytes, 0, format);
        if section_len > len as u64 || len - w < w + 2 {
            return Err(DecodeError::TruncatedInput);
        }
        let count = as_i16_be(bytes, 2 * w);
        if count < 0 {
            return Err(DecodeError::InvalidLayerCount { count });
        }
        let n = count as usize;
        let start = 2 * w + 2;
        let mut layers: Vec<(String, PsdLayer)> = Vec::new();
        let ghost mut ns: Seq<Seq<char>> = seq![];
        let mut pos = start;
        let mut i: usize = 0;
        assert(layers_model(layers@) =~= seq![]);
        while i < n
            invariant
                i <= n,
                n == declared_layer_count(bytes@, format),
                start == 2 * len_size(format) + 2,
                len == bytes@.len(),
                section_spec(bytes@, format) == match layers_spec(
                    bytes@,
                    start as int,
                    format,
                    n as nat,
                ) {
                    Err(e) => Err(e),
                    Ok((ls, _, end)) => Ok((ls, end)),
                },
                layers_spec(bytes@, start as int, format, i as nat) == Ok::<_, DecodeError>(
                    (layers_model(layers@), ns, pos as int),
                ),
            decreases n - i,
        {
            proof {
                lemma_layers_ok(bytes@, start as int, format, i as nat);
            }
            let ghost p0 = pos;
            let rec = match read_layer_record(bytes, &mut pos, format) {
                Ok(rec) => rec,
                Err(e) => {
                    proof {
                        lemma_layers_err_stays(bytes@, start as int, format, (i + 1) as nat, n as nat);
                    }
                    return Err(e);
                },
            };
            proof {
                lemma_record_layout(bytes@, p0 as int, format);
            }
            let (layer, q) = match read_channel_data(bytes, pos, &rec.channels) {
                Some(v) => v,
                None => {
                    proof {
                        lemma_layers_err_stays(bytes@, start as int, format, (i + 1) as nat, n as nat);
                    }
                    return Err(DecodeError::TruncatedInput);
                },
            };
            let ghost nm = rec.name@;
            put_layer(&mut layers, rec.name, layer);
            proof {
                ns = ns.push(nm);
            }
            pos = q;
            i = i + 1;
        }
        Ok(LayerAndMaskInformationSection { layers })
    }
}

} // verus!
