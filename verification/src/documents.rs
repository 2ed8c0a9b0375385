use vstd::prelude::*;

use crate::text::str_eq;

verus! {

/// An open document: its text, the version the client gave it, and the
/// generation that tells one opening of a URI from a later one.
#[derive(Debug)]
pub struct Document {
    pub text: String,
    pub version: i32,
    pub generation: u64,
}

/// A document as plain values.
pub struct DocumentView {
    pub text: Seq<char>,
    pub version: i32,
    pub generation: u64,
}

impl View for Document {
    type V = DocumentView;

    open spec fn view(&self) -> DocumentView {
        DocumentView { text: self.text@, version: self.version, generation: self.generation }
    }
}

/// One change of a document: its new text, and whether it names a range
/// (an incremental change) rather than replacing the whole document.
pub struct ContentChange {
    pub text: String,
    pub ranged: bool,
}

/// Why a change was refused.
#[derive(Clone, Copy, Debug, PartialEq, Eq, Structural)]
pub enum ChangeError {
    /// Full synchronization requires whole-document changes.
    IncrementalChange,
}

/// The open documents, by URI.
#[derive(Debug)]
pub struct Documents {
    entries: Vec<(String, Document)>,
    next_generation: u64,
}

/// The last entry for `uri`, as plain values.
pub open spec fn lookup(entries: Seq<(String, Document)>, uri: Seq<char>) -> Option<DocumentView>
    decreases entries.len(),
{
    if entries.len() == 0 {
        None
    } else if entries.last().0@ == uri {
        Some(entries.last().1@)
    } else {
        lookup(entries.drop_last(), uri)
    }
}

/// No URI occurs twice.
pub open spec fn distinct_uris(entries: Seq<(String, Document)>) -> bool {
    forall|i: int, j: int| 0 <= i < j < entries.len() ==> entries[i].0@ != entries[j].0@
}

/// A URI scheme that documents may be opened with.
pub open spec fn accepted_scheme(scheme: Option<&str>) -> bool {
    match scheme {
        Some(s) => s@ == "file"@ || s@ == "untitled"@,
        None => false,
    }
}

proof fn lemma_lookup_found(entries: Seq<(String, Document)>, i: int)
    requires
        distinct_uris(entries),
        0 <= i < entries.len(),
    ensures
        lookup(entries, entries[i].0@) == Some(entries[i].1@),
    decreases entries.len(),
{
    if i < entries.len() - 1 {
        let rest = entries.drop_last();
        assert(rest[i] == entries[i]);
        lemma_lookup_found(rest, i);
    }
}

proof fn lemma_lookup_absent(entries: Seq<(String, Document)>, uri: Seq<char>)
    requires
        forall|i: int| 0 <= i < entries.len() ==> entries[i].0@ != uri,
    ensures
        lookup(entries, uri) is None,
    decreases entries.len(),
{
    if entries.len() > 0 {
        let rest = entries.drop_last();
        assert forall|i: int| 0 <= i < rest.len() implies rest[i].0@ != uri by {
            assert(rest[i] == entries[i]);
        }
        lemma_lookup_absent(rest, uri);
    }
}

proof fn lemma_lookup_present(entries: Seq<(String, Document)>, uri: Seq<char>)
    requires
        lookup(entries, uri) is Some,
    ensures
        exists|i: int| 0 <= i < entries.len() && entries[i].0@ == uri,
    decreases entries.len(),
{
    if entries.last().0@ != uri {
        lemma_lookup_present(entries.drop_last(), uri);
        let i = choose|i: int| 0 <= i < entries.len() - 1 && entries.drop_last()[i].0@ == uri;
        assert(entries[i] == entries.drop_last()[i]);
    } else {
        assert(entries[entries.len() - 1].0@ == uri);
    }
}

proof fn lemma_lookup_update(entries: Seq<(String, Document)>, i: int, entry: (String, Document), uri: Seq<char>)
    requires
        distinct_uris(entries),
        0 <= i < entries.len(),
        entry.0@ == entries[i].0@,
    ensures
        lookup(entries.update(i, entry), uri) == if uri == entries[i].0@ {
            Some(entry.1@)
        } else {
            lookup(entries, uri)
        },
    decreases entries.len(),
{
    let updated = entries.update(i, entry);
    if i == entries.len() - 1 {
        if uri != entries[i].0@ {
            assert(updated.drop_last() =~= entries.drop_last());
        }
    } else {
        let rest = entries.drop_last();
        assert(updated.drop_last() =~= rest.update(i, entry));
        assert(rest[i] == entries[i]);
        assert(updated.last() == entries.last());
        if uri == entries[i].0@ {
            assert(entries.last().0@ != entries[i].0@);
        }
        lemma_lookup_update(rest, i, entry, uri);
    }
}

proof fn lemma_lookup_remove(entries: Seq<(String, Document)>, i: int, uri: Seq<char>)
    requires
        distinct_uris(entries),
        0 <= i < entries.len(),
    ensures
        lookup(entries.remove(i), uri) == if uri == entries[i].0@ {
            None
        } else {
            lookup(entries, uri)
        },
    decreases entries.len(),
{
    let removed = entries.remove(i);
    if i == entries.len() - 1 {
        assert(removed =~= entries.drop_last());
        if uri == entries[i].0@ {
            assert forall|j: int| 0 <= j < removed.len() implies removed[j].0@ != uri by {
                assert(removed[j] == entries[j]);
            }
            lemma_lookup_absent(removed, uri);
        }
    } else {
        let rest = entries.drop_last();
        assert(removed.drop_last() =~= rest.remove(i));
        assert(removed.last() == entries.last());
        assert(rest[i] == entries[i]);
        if uri == entries[i].0@ {
            assert(entries.last().0@ != entries[i].0@);
        }
        lemma_lookup_remove(rest, i, uri);
    }
}

impl Documents {
    /// The open documents as a map from URI to document.
    pub closed spec fn spec_map(&self) -> Map<Seq<char>, DocumentView> {
        Map::new(
            |uri: Seq<char>| lookup(self.entries@, uri) is Some,
            |uri: Seq<char>| lookup(self.entries@, uri).unwrap(),
        )
    }

    /// The generation the next opened document gets.
    pub closed spec fn spec_next_generation(&self) -> u64 {
        self.next_generation
    }

    /// No URI occurs twice, and every generation handed out so far is
    /// below the next one.
    pub closed spec fn wf(&self) -> bool {
        &&& distinct_uris(self.entries@)
        &&& forall|i: int|
            0 <= i < self.entries@.len() ==> #[trigger] self.entries@[i].1.generation
                < self.next_generation
    }

    /// Every open document was given a generation below the next one.
    pub proof fn lemma_generations_below(&self, uri: Seq<char>)
        requires
            self.wf(),
            self.spec_map().contains_key(uri),
        ensures
            self.spec_map()[uri].generation < self.spec_next_generation(),
    {
        lemma_lookup_present(self.entries@, uri);
        let i = choose|i: int| 0 <= i < self.entries@.len() && self.entries@[i].0@ == uri;
        lemma_lookup_found(self.entries@, i);
    }

    /// No documents are open.
    pub fn new() -> (result: Self)
        ensures
            result.wf(),
            result.spec_map() == Map::<Seq<char>, DocumentView>::empty(),
            result.spec_next_generation() == 0,
    {
        let result = Documents { entries: Vec::new(), next_generation: 0 };
        assert(result.spec_map() =~= Map::<Seq<char>, DocumentView>::empty());
        result
    }

    /// Whether another document can still be given a fresh generation.
    pub fn can_open(&self) -> (result: bool)
        ensures
            result == (self.spec_next_generation() < u64::MAX),
    {
        self.next_generation < u64::MAX
    }

    fn index_of(&self, uri: &str) -> (result: Option<usize>)
        requires
            self.wf(),
        ensures
            match result {
                Some(i) => i < self.entries@.len() && self.entries@[i as int].0@ == uri@,
                None => !self.spec_map().contains_key(uri@),
            },
    {
        let n = self.entries.len();
        let mut i: usize = 0;
        while i < n
            invariant
                n == self.entries@.len(),
                i <= n,
                forall|j: int| 0 <= j < i ==> self.entries@[j].0@ != uri@,
            decreases n - i,
        {
            if str_eq(self.entries[i].0.as_str(), uri) {
                return Some(i);
            }
            i = i + 1;
        }
        proof {
            lemma_lookup_absent(self.entries@, uri@);
        }
        None
    }

    /// The document open under `uri`.
    pub fn get(&self, uri: &str) -> (result: Option<&Document>)
        requires
            self.wf(),
        ensures
            match result {
                Some(document) => self.spec_map().contains_key(uri@) && self.spec_map()[uri@]
                    == document@,
                None => !self.spec_map().contains_key(uri@),
            },
    {
        match self.index_of(uri) {
            Some(i) => {
                proof {
                    lemma_lookup_found(self.entries@, i as int);
                }
                Some(&self.entries[i].1)
            },
            None => None,
        }
    }

    /// How many documents are open.
    pub fn len(&self) -> (result: usize)
        requires
            self.wf(),
        ensures
            result == self.spec_map().dom().len(),
    {
        proof {
            self.lemma_dom_len();
        }
        self.entries.len()
    }

    proof fn lemma_dom_len(&self)
        requires
            self.wf(),
        ensures
            self.spec_map().dom().len() == self.entries@.len(),
            self.spec_map().dom().finite(),
    {
        let keys = self.entries@.map_values(|e: (String, Document)| e.0@);
        assert(self.spec_map().dom() =~= keys.to_set()) by {
            assert forall|uri: Seq<char>| self.spec_map().dom().contains(uri) implies keys.to_set().contains(uri) by {
                lemma_lookup_present(self.entries@, uri);
                let i = choose|i: int| 0 <= i < self.entries@.len() && self.entries@[i].0@ == uri;
                assert(keys[i] == uri);
            }
            assert forall|uri: Seq<char>| keys.to_set().contains(uri) implies self.spec_map().dom().contains(uri) by {
                let i = choose|i: int| 0 <= i < keys.len() && keys[i] == uri;
                lemma_lookup_found(self.entries@, i);
            }
        }
        assert(keys.no_duplicates());
        keys.unique_seq_to_set();
    }

    /// Opens a document under `uri`, whose scheme is `scheme`, unless the
    /// scheme is neither `file` nor `untitled` or the URI is already open.
    /// A newly opened document gets the next generation.
    pub fn open(&mut self, uri: String, scheme: Option<&str>, version: i32, text: String) -> (result:
        Option<String>)
        requires
            old(self).wf(),
            old(self).spec_next_generation() < u64::MAX,
        ensures
            final(self).wf(),
            (accepted_scheme(scheme) && !old(self).spec_map().contains_key(uri@))
                ==> {
                &&& result matches Some(u) && u@ == uri@
                &&& final(self).spec_map() == old(self).spec_map().insert(
                    uri@,
                    DocumentView {
                        text: text@,
                        version,
                        generation: old(self).spec_next_generation(),
                    },
                )
                &&& final(self).spec_next_generation() == old(self).spec_next_generation() + 1
            },
            !(accepted_scheme(scheme) && !old(self).spec_map().contains_key(uri@))
                ==> {
                &&& result is None
                &&& final(self).spec_map() == old(self).spec_map()
                &&& final(self).spec_next_generation() == old(self).spec_next_generation()
            },
    {
        let accepted = match scheme {
            Some(s) => str_eq(s, "file") || str_eq(s, "untitled"),
            None => false,
        };
        if !accepted {
            return None;
        }
        if let Some(i) = self.index_of(uri.as_str()) {
            proof {
                lemma_lookup_found(self.entries@, i as int);
            }
            return None;
        }
        let ghost old_entries = self.entries@;
        let generation = self.next_generation;
        let copy = uri.clone();
        self.entries.push((copy, Document { text, version, generation }));
        self.next_generation = generation + 1;
        proof {
            let entries = self.entries@;
            assert(entries.drop_last() == old_entries);
            assert forall|i: int, j: int| 0 <= i < j < entries.len() implies entries[i].0@
                != entries[j].0@ by {
                if j == entries.len() - 1 {
                    assert(entries[i] == old_entries[i]);
                    assert(lookup(old_entries, uri@) is None);
                    if entries[i].0@ == uri@ {
                        lemma_lookup_found(old_entries, i);
                    }
                } else {
                    assert(entries[i] == old_entries[i]);
                    assert(entries[j] == old_entries[j]);
                }
            }
            assert forall|i: int| 0 <= i < entries.len() implies #[trigger] entries[i].1.generation
                < self.next_generation by {
                if i < entries.len() - 1 {
                    assert(entries[i] == old_entries[i]);
                }
            }
            assert(self.spec_map() =~= old(self).spec_map().insert(
                uri@,
                DocumentView { text: entries.last().1.text@, version, generation },
            ));
        }
        Some(uri)
    }

    /// Applies a change to the document open under `uri`: nothing happens
    /// unless it is open and `version` is newer than its own; a change
    /// that names a range is refused; otherwise the last change's text (if
    /// any) replaces the document's and `version` becomes its version.
    /// `Ok(true)` reports that the document changed.
    pub fn change(&mut self, uri: &str, version: i32, changes: Vec<ContentChange>) -> (result:
        Result<bool, ChangeError>)
        requires
            old(self).wf(),
        ensures
            final(self).wf(),
            final(self).spec_next_generation() == old(self).spec_next_generation(),
            !old(self).spec_map().contains_key(uri@) || version <= old(self).spec_map()[uri@].version
                ==> result == Ok::<bool, ChangeError>(false) && final(self).spec_map() == old(
                self,
            ).spec_map(),
            old(self).spec_map().contains_key(uri@) && version > old(self).spec_map()[uri@].version
                && (exists|k: int| 0 <= k < changes@.len() && #[trigger] changes@[k].ranged) ==> result
                == Err::<bool, ChangeError>(ChangeError::IncrementalChange) && final(self).spec_map()
                == old(self).spec_map(),
            old(self).spec_map().contains_key(uri@) && version > old(self).spec_map()[uri@].version
                && (forall|k: int| 0 <= k < changes@.len() ==> !#[trigger] changes@[k].ranged)
                ==> result == Ok::<bool, ChangeError>(true) && final(self).spec_map() == old(
                self,
            ).spec_map().insert(
                uri@,
                DocumentView {
                    text: if changes@.len() > 0 {
                        changes@.last().text@
                    } else {
                        old(self).spec_map()[uri@].text
                    },
                    version,
                    generation: old(self).spec_map()[uri@].generation,
                },
            ),
    {
        let i = match self.index_of(uri) {
            Some(i) => i,
            None => return Ok(false),
        };
        proof {
            lemma_lookup_found(self.entries@, i as int);
        }
        if version <= self.entries[i].1.version {
            return Ok(false);
        }
        let n = changes.len();
        let mut k: usize = 0;
        while k < n
            invariant
                n == changes@.len(),
                k <= n,
                forall|j: int| 0 <= j < k ==> !#[trigger] changes@[j].ranged,
                *self == *old(self),
                old(self).wf(),
                old(self).spec_map().contains_key(uri@),
                version > old(self).spec_map()[uri@].version,
            decreases n - k,
        {
            if changes[k].ranged {
                return Err(ChangeError::IncrementalChange);
            }
            k = k + 1;
        }
        let ghost old_entries = self.entries@;
        let mut changes = changes;
        let (key, mut document) = self.entries.remove(i);
        let ghost removed = self.entries@;
        if let Some(last) = changes.pop() {
            document.text = last.text;
        }
        document.version = version;
        self.entries.insert(i, (key, document));
        proof {
            let entries = self.entries@;
            assert(entries =~= old_entries.update(i as int, entries[i as int]));
            assert forall|u: Seq<char>| #[trigger] lookup(entries, u) == if u == old_entries[i as int].0@ {
                Some(entries[i as int].1@)
            } else {
                lookup(old_entries, u)
            } by {
                lemma_lookup_update(old_entries, i as int, entries[i as int], u);
            }
            assert forall|a: int, b: int| 0 <= a < b < entries.len() implies entries[a].0@
                != entries[b].0@ by {
                assert(entries[a].0@ == old_entries[a].0@);
                assert(entries[b].0@ == old_entries[b].0@);
            }
            assert forall|j: int| 0 <= j < entries.len() implies #[trigger] entries[j].1.generation
                < self.next_generation by {
                assert(old_entries[j].1.generation < self.next_generation);
            }
            assert(self.spec_map() =~= old(self).spec_map().insert(uri@, entries[i as int].1@));
        }
        Ok(true)
    }

    /// Closes the document open under `uri`, handing it back.
    pub fn close(&mut self, uri: &str) -> (result: Option<Document>)
        requires
            old(self).wf(),
        ensures
            final(self).wf(),
            final(self).spec_next_generation() == old(self).spec_next_generation(),
            final(self).spec_map() == old(self).spec_map().remove(uri@),
            match result {
                Some(document) => old(self).spec_map().contains_key(uri@) && old(self).spec_map()[uri@]
                    == document@,
                None => !old(self).spec_map().contains_key(uri@),
            },
    {
        match self.index_of(uri) {
            None => {
                assert(self.spec_map() =~= old(self).spec_map().remove(uri@));
                None
            },
            Some(i) => {
                let ghost old_entries = self.entries@;
                proof {
                    lemma_lookup_found(old_entries, i as int);
                }
                let (_, document) = self.entries.remove(i);
                proof {
                    let entries = self.entries@;
                    assert(entries == old_entries.remove(i as int));
                    assert forall|u: Seq<char>| #[trigger] lookup(entries, u) == if u
                        == old_entries[i as int].0@ {
                        None
                    } else {
                        lookup(old_entries, u)
                    } by {
                        lemma_lookup_remove(old_entries, i as int, u);
                    }
                    assert forall|a: int, b: int| 0 <= a < b < entries.len() implies entries[a].0@
                        != entries[b].0@ by {
                        if a < i {
                            assert(entries[a] == old_entries[a]);
                        } else {
                            assert(entries[a] == old_entries[a + 1]);
                        }
                        if b < i {
                            assert(entries[b] == old_entries[b]);
                        } else {
                            assert(entries[b] == old_entries[b + 1]);
                        }
                    }
                    assert forall|j: int| 0 <= j < entries.len() implies #[trigger] entries[j].1.generation
                        < self.next_generation by {
                        if j < i {
                            assert(entries[j] == old_entries[j]);
                        } else {
                            assert(entries[j] == old_entries[j + 1]);
                        }
                    }
                    assert(self.spec_map() =~= old(self).spec_map().remove(uri@));
                }
                Some(document)
            },
        }
    }
}

/// A document that is closed and opened again under the same URI is told
/// apart from its earlier opening: closing keeps the next generation, and
/// opening hands it out, so the new generation exceeds the old one.
pub proof fn law_reopen_is_a_new_generation(
    first: &Documents,
    closed: &Documents,
    reopened: &Documents,
    uri: Seq<char>,
)
    requires
        first.wf(),
        first.spec_map().contains_key(uri),
        closed.spec_next_generation() == first.spec_next_generation(),
        reopened.spec_map().contains_key(uri),
        reopened.spec_map()[uri].generation == closed.spec_next_generation(),
    ensures
        reopened.spec_map()[uri].generation > first.spec_map()[uri].generation,
{
    first.lemma_generations_below(uri);
}

} // verus!
