//! The documents that the service searches.
use vstd::prelude::*;

verus! {

/// One document of the corpus.
#[derive(Clone, Debug, PartialEq, Eq)]
pub struct Page {
    pub id: i64,
    pub name: String,
    pub body: String,
    pub link: String,
}

impl Page {
    /// A field-by-field copy of the page.
    pub fn duplicate(&self) -> (r: Page)
        ensures
            r == *self,
    {
        Page {
            id: self.id,
            name: self.name.clone(),
            body: self.body.clone(),
            link: self.link.clone(),
        }
    }
}

/// Why a corpus could not be formed.
#[derive(Clone, Copy, Debug, PartialEq, Eq, Structural)]
pub enum CorpusError {
    /// The document list held no page.
    NoPages,
}

/// The ordered, non-empty list of documents, fixed once loaded.
#[derive(Debug)]
pub struct Corpus {
    pub pages: Vec<Page>,
}

impl Corpus {
    /// Forms a corpus from parsed pages, which must not be empty.
    pub fn from_pages(pages: Vec<Page>) -> (r: Result<Corpus, CorpusError>)
        ensures
            pages@.len() == 0 <==> r == Err::<Corpus, CorpusError>(CorpusError::NoPages),
            r is Ok ==> r->Ok_0.pages@ == pages@,
    {
        if pages.len() == 0 {
            Err(CorpusError::NoPages)
        } else {
            Ok(Corpus { pages })
        }
    }
}

} // verus!
