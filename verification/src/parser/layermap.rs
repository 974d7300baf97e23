//! The parser of layer-map files: lines of four words, a layer name, a
//! purpose, a stream number and a data type, where `#` starts a comment.

use vstd::prelude::*;
use crate::named_map::{
    assoc_insert, distinct_keys, key_index, lemma_insert_keeps_keys_distinct, lemma_key_index, lookup,
};
use crate::num::{parse_uint, parse_usize};
use crate::parser::reader::{FileStreamReader, content_words};
use crate::text::string_from_chars;

verus! {

/// Why a layer-map file could not be read.
#[derive(Debug, Clone, Copy, PartialEq, Eq, Structural)]
pub enum LayerMapError {
    /// The text ends inside an entry.
    UnexpectedEnd,
    /// A stream number or data type is not a decimal `usize`.
    BadNumber,
}

/// A map from (layer name, purpose) to (stream number, data type), in the
/// order in which the pairs were first inserted; no pair occurs twice.
pub struct LayerMap {
    entries: Vec<((String, String), (usize, usize))>,
}

/// What a [`LayerMap`] holds.
pub type LayerMapView = Seq<((Seq<char>, Seq<char>), (usize, usize))>;

impl View for LayerMap {
    type V = LayerMapView;

    closed spec fn view(&self) -> LayerMapView {
        self.entries@.map_values(
            |e: ((String, String), (usize, usize))| ((e.0.0@, e.0.1@), e.1),
        )
    }
}

impl LayerMap {
    /// No two entries are for the same (layer name, purpose).
    #[verifier::type_invariant]
    spec fn keys_distinct(&self) -> bool {
        distinct_keys(self@)
    }

    /// An empty map.
    pub fn new() -> (res: Self)
        ensures
            res@ == LayerMapView::empty(),
            distinct_keys(res@),
    {
        let res = LayerMap { entries: Vec::new() };
        assert(res@ =~= LayerMapView::empty());
        res
    }

    /// The number of entries.
    pub fn len(&self) -> (res: usize)
        ensures
            res == self@.len(),
    {
        self.entries.len()
    }

    /// Entry `i`: its layer name, purpose, stream number and data type.
    pub fn entry_at(&self, i: usize) -> (res: (&String, &String, usize, usize))
        requires
            i < self@.len(),
        ensures
            self@[i as int] == ((res.0@, res.1@), (res.2, res.3)),
    {
        let e = &self.entries[i];
        (&e.0.0, &e.0.1, e.1.0, e.1.1)
    }

    /// The index of the entry for `(layer, purpose)`, if any.
    pub fn index_of(&self, layer: &str, purpose: &str) -> (res: Option<usize>)
        ensures
            match res {
                Some(i) => key_index(self@, (layer@, purpose@)) == Some(i as int),
                None => key_index(self@, (layer@, purpose@)) is None,
            },
    {
        proof {
            lemma_key_index(self@, (layer@, purpose@));
        }
        let l = String::from_str(layer);
        let p = String::from_str(purpose);
        let mut i: usize = 0;
        while i < self.entries.len()
            invariant
                self@.len() == self.entries@.len(),
                i <= self.entries@.len(),
                l@ == layer@,
                p@ == purpose@,
                forall|j: int| 0 <= j < i ==> #[trigger] self@[j].0 != (layer@, purpose@),
                match key_index(self@, (layer@, purpose@)) {
                    Some(x) => 0 <= x < self@.len() && self@[x].0 == (layer@, purpose@) && forall|
                        j: int,
                    | 0 <= j < x ==> #[trigger] self@[j].0 != (layer@, purpose@),
                    None => forall|j: int|
                        0 <= j < self@.len() ==> #[trigger] self@[j].0 != (layer@, purpose@),
                },
            decreases self.entries@.len() - i,
        {
            if self.entries[i].0.0 == l && self.entries[i].0.1 == p {
                assert(self@[i as int].0 == (layer@, purpose@));
                return Some(i);
            }
            assert(self@[i as int].0 != (layer@, purpose@));
            i += 1;
        }
        None
    }

    /// The stream number and data type of `(layer, purpose)`, if any.
    pub fn get(&self, layer: &str, purpose: &str) -> (res: Option<(usize, usize)>)
        ensures
            res == lookup(self@, (layer@, purpose@)),
    {
        proof {
            lemma_key_index(self@, (layer@, purpose@));
        }
        match self.index_of(layer, purpose) {
            Some(i) => {
                assert(self@[i as int].1 == self.entries@[i as int].1);
                Some(self.entries[i].1)
            },
            None => None,
        }
    }

    /// Sets the numbers of `(layer, purpose)`: an existing entry changes in
    /// place, otherwise the entry is added at the end.
    pub fn insert(&mut self, layer: String, purpose: String, value: (usize, usize))
        ensures
            final(self)@ == assoc_insert(old(self)@, (layer@, purpose@), value),
            distinct_keys(final(self)@),
    {
        let ghost before = self@;
        let ghost k = (layer@, purpose@);
        proof {
            use_type_invariant(&*self);
            lemma_key_index(before, k);
            lemma_insert_keeps_keys_distinct(before, k, value);
        }
        let found = self.index_of(layer.as_str(), purpose.as_str());
        let mut entries: Vec<((String, String), (usize, usize))> = Vec::new();
        std::mem::swap(&mut entries, &mut self.entries);
        assert(entries@.map_values(
            |e: ((String, String), (usize, usize))| ((e.0.0@, e.0.1@), e.1),
        ) == before);
        match found {
            Some(i) => {
                let mut e = ((layer, purpose), value);
                entries.set_and_swap(i, &mut e);
            },
            None => {
                entries.push(((layer, purpose), value));
            },
        }
        assert(entries@.map_values(
            |e: ((String, String), (usize, usize))| ((e.0.0@, e.0.1@), e.1),
        ) =~= assoc_insert(before, k, value));
        self.entries = entries;
    }
}

/// What reading the entries `words` into the map `m` gives: the map, and
/// the error that stopped the reading, if any. Each entry is four words; the
/// last two must be decimal numbers.
pub open spec fn layermap_run(m: LayerMapView, words: Seq<Seq<char>>) -> (
    LayerMapView,
    Option<LayerMapError>,
)
    decreases words.len(),
{
    if words.len() == 0 {
        (m, None)
    } else if words.len() < 3 {
        (m, Some(LayerMapError::UnexpectedEnd))
    } else if parse_uint(words[2], 10, usize::MAX as nat) is None {
        (m, Some(LayerMapError::BadNumber))
    } else if words.len() < 4 {
        (m, Some(LayerMapError::UnexpectedEnd))
    } else if parse_uint(words[3], 10, usize::MAX as nat) is None {
        (m, Some(LayerMapError::BadNumber))
    } else {
        layermap_run(
            assoc_insert(
                m,
                (words[0], words[1]),
                (
                    parse_uint(words[2], 10, usize::MAX as nat).unwrap() as usize,
                    parse_uint(words[3], 10, usize::MAX as nat).unwrap() as usize,
                ),
            ),
            words.skip(4),
        )
    }
}

/// What parsing the layer-map text `content` gives.
pub open spec fn parse_layermap_text(content: Seq<char>) -> (LayerMapView, Option<LayerMapError>) {
    layermap_run(LayerMapView::empty(), content_words(content, Some("#"@)))
}

/// The error of a result, if any.
pub open spec fn layermap_err(r: Result<(), LayerMapError>) -> Option<LayerMapError> {
    match r {
        Ok(()) => None,
        Err(e) => Some(e),
    }
}

/// The key under which a layer and purpose are written: `layer#purpose`.
pub fn layer_key(layer: &String, purpose: &String) -> (res: String)
    ensures
        res@ == layer@ + "#"@ + purpose@,
{
    let mut v = crate::text::chars_of(layer.as_str());
    v.push('#');
    let p = crate::text::chars_of(purpose.as_str());
    let mut i: usize = 0;
    let ghost start = v@;
    while i < p.len()
        invariant
            i <= p@.len(),
            v@ == start + p@.take(i as int),
        decreases p@.len() - i,
    {
        v.push(p[i]);
        assert(p@.take(i + 1) =~= p@.take(i as int).push(p@[i as int]));
        i += 1;
    }
    proof {
        reveal_strlit("#");
        assert(p@.take(p@.len() as int) =~= p@);
        assert(v@ =~= layer@ + "#"@ + purpose@);
    }
    string_from_chars(&v)
}

/// Reads a layer-map file into a map from (layer, purpose) to (stream
/// number, data type).
pub struct LayerMapParser {
    pub layermap: LayerMap,
    pub reader: FileStreamReader,
}

impl LayerMapParser {
    /// The words not yet read.
    pub open spec fn words(&self) -> Seq<Seq<char>> {
        self.reader.remaining()
    }

    /// The reader is well formed.
    pub open spec fn wf(&self) -> bool {
        self.reader.wf()
    }

    /// A parser of the text `content`, where `#` starts a comment.
    pub fn from_string(content: &str) -> (res: Self)
        ensures
            res.wf(),
            res.layermap@ == LayerMapView::empty(),
            res.words() == content_words(content@, Some("#"@)),
    {
        LayerMapParser { layermap: LayerMap::new(), reader: FileStreamReader::from_string(content, Some("#")) }
    }

    /// Reads the entries, four words each, until the text ends; the map and
    /// the result are what [`layermap_run`] gives.
    pub fn parse(&mut self) -> (res: Result<(), LayerMapError>)
        requires
            old(self).wf(),
        ensures
            final(self).wf(),
            (final(self).layermap@, layermap_err(res)) == layermap_run(
                old(self).layermap@,
                old(self).words(),
            ),
    {
        let ghost target = layermap_run(self.layermap@, self.reader.remaining());
        while self.reader.peek_word().is_some()
            invariant
                self.reader.wf(),
                target == layermap_run(old(self).layermap@, old(self).reader.remaining()),
                layermap_run(self.layermap@, self.reader.remaining()) == target,
            decreases self.reader.remaining().len(),
        {
            let ghost w = self.reader.remaining();
            let layer_name = self.reader.next_word().unwrap();
            let purpose = match self.reader.next_word() {
                Some(p) => p,
                None => return Err(LayerMapError::UnexpectedEnd),
            };
            let layer_number = match self.reader.next_word() {
                Some(t) => match parse_usize(&t) {
                    Some(n) => n,
                    None => return Err(LayerMapError::BadNumber),
                },
                None => return Err(LayerMapError::UnexpectedEnd),
            };
            let purpose_number = match self.reader.next_word() {
                Some(t) => match parse_usize(&t) {
                    Some(n) => n,
                    None => return Err(LayerMapError::BadNumber),
                },
                None => return Err(LayerMapError::UnexpectedEnd),
            };
            assert(self.reader.remaining() =~= w.skip(4));
            self.layermap.insert(layer_name, purpose, (layer_number, purpose_number));
        }
        Ok(())
    }
}

} // verus!
