//! The pages of a drawing and the notebook that holds them.
//!
//! A drawing starts as a single page. It becomes a notebook when pages are asked for, or
//! when a notebook is opened from a file. One page is the current one: it is the page
//! that is shown, drawn on and searched.

use vstd::prelude::*;

verus! {

/// A text label on a page. The library reads its text; where and how large it is shown
/// is for the caller to say, in a type of its choice.
pub struct TextElement<G> {
    pub text: String,
    pub geometry: G,
}

/// One page: its strokes, its text labels and its name.
pub struct Page<S, G> {
    pub strokes: Vec<S>,
    pub text_elements: Vec<TextElement<G>>,
    pub name: String,
}

/// What a file holds: a whole notebook, or the single page of a drawing that was saved
/// before it became one.
pub enum Document<S, G> {
    Notebook { pages: Vec<Page<S, G>>, current_page_index: usize },
    SinglePage { strokes: Vec<S>, text_elements: Vec<TextElement<G>> },
}

/// Why a file could not be opened.
#[derive(Clone, Copy, Debug, PartialEq, Eq, Structural)]
pub enum LoadError {
    /// The file holds neither a notebook nor a single page.
    InvalidFormat,
}

/// The pages of a drawing, and which of them is the current one.
pub struct Notebook<S, G> {
    pages: Vec<Page<S, G>>,
    current_page_index: usize,
    is_notebook_mode: bool,
}

/// The character for a digit.
pub open spec fn digit_char(d: int) -> char {
    if d == 0 {
        '0'
    } else if d == 1 {
        '1'
    } else if d == 2 {
        '2'
    } else if d == 3 {
        '3'
    } else if d == 4 {
        '4'
    } else if d == 5 {
        '5'
    } else if d == 6 {
        '6'
    } else if d == 7 {
        '7'
    } else if d == 8 {
        '8'
    } else {
        '9'
    }
}

/// A number written in decimal digits, without a sign or leading zeros.
pub open spec fn decimal(n: nat) -> Seq<char>
    decreases n,
{
    if n < 10 {
        seq![digit_char(n as int)]
    } else {
        decimal(n / 10).push(digit_char((n % 10) as int))
    }
}

/// The name that a page gets from its number: the word `Page`, a space and the number.
pub open spec fn numbered_name(number: nat) -> Seq<char> {
    seq!['P', 'a', 'g', 'e', ' '] + decimal(number)
}

/// The name of the page that a single-page file becomes.
pub open spec fn imported_name() -> Seq<char> {
    "Imported Page"@
}

/// Whether a page has neither strokes nor text and the given name.
pub open spec fn empty_page<S, G>(page: Page<S, G>, name: Seq<char>) -> bool {
    &&& page.strokes@.len() == 0
    &&& page.text_elements@.len() == 0
    &&& page.name@ == name
}

/// Whether `pages` are `count` empty pages, numbered from `first` on.
pub open spec fn numbered_pages<S, G>(pages: Seq<Page<S, G>>, first: nat, count: nat) -> bool {
    &&& pages.len() == count
    &&& forall|i: int| 0 <= i < count ==> empty_page(#[trigger] pages[i], numbered_name((first + i) as nat))
}

/// The index that is current after a notebook of `count` pages was opened with
/// `wanted` as its current page: `wanted`, or the last page if there are fewer.
pub open spec fn clamped_index(wanted: usize, count: nat) -> usize {
    if count == 0 {
        0
    } else if wanted < count {
        wanted
    } else {
        (count - 1) as usize
    }
}

/// The character for a digit.
fn digit(d: usize) -> (c: char)
    requires
        d < 10,
    ensures
        c == digit_char(d as int),
{
    if d == 0 {
        '0'
    } else if d == 1 {
        '1'
    } else if d == 2 {
        '2'
    } else if d == 3 {
        '3'
    } else if d == 4 {
        '4'
    } else if d == 5 {
        '5'
    } else if d == 6 {
        '6'
    } else if d == 7 {
        '7'
    } else if d == 8 {
        '8'
    } else {
        '9'
    }
}

/// Appends a number in decimal digits.
fn push_decimal(out: &mut String, n: usize)
    ensures
        final(out)@ == old(out)@ + decimal(n as nat),
    decreases n,
{
    if n >= 10 {
        push_decimal(out, n / 10);
    }
    let ghost before = out@;
    out.push(digit(n % 10));
    proof {
        if n >= 10 {
            assert(before.push(digit_char((n % 10) as int)) == old(out)@ + decimal(n as nat));
        } else {
            assert(before.push(digit_char(n as int)) == old(out)@ + decimal(n as nat));
        }
    }
}

/// The name of the page with the given number.
pub fn page_name(number: usize) -> (name: String)
    ensures
        name@ == numbered_name(number as nat),
{
    proof {
        reveal_strlit("Page ");
    }
    let mut name = String::from_str("Page ");
    assert(name@ == seq!['P', 'a', 'g', 'e', ' ']);
    push_decimal(&mut name, number);
    name
}

/// An empty page with the given name.
fn blank_page<S, G>(name: String) -> (page: Page<S, G>)
    ensures
        empty_page(page, name@),
{
    Page { strokes: Vec::new(), text_elements: Vec::new(), name }
}

impl<S, G> Document<S, G> {
    /// Settles what a file holds, given what reading it as a notebook and as a single
    /// page gave: a notebook where it reads as one, else a single page, else nothing.
    pub fn settle(as_notebook: Option<Document<S, G>>, as_single_page: Option<Document<S, G>>) -> (found:
        Result<Document<S, G>, LoadError>)
        ensures
            as_notebook is Some ==> found == Ok::<Document<S, G>, LoadError>(as_notebook->0),
            as_notebook is None && as_single_page is Some ==> found == Ok::<Document<S, G>, LoadError>(
                as_single_page->0,
            ),
            as_notebook is None && as_single_page is None ==> found == Err::<Document<S, G>, LoadError>(
                LoadError::InvalidFormat,
            ),
    {
        match as_notebook {
            Some(document) => Ok(document),
            None => match as_single_page {
                Some(document) => Ok(document),
                None => Err(LoadError::InvalidFormat),
            },
        }
    }
}

impl LoadError {
    /// The words that tell a user of the error.
    pub fn message(&self) -> (text: String)
        ensures
            text@ == "Invalid file format"@,
    {
        String::from_str("Invalid file format")
    }
}

impl<S, G> Notebook<S, G> {
    /// The pages, in their order.
    pub closed spec fn pages(&self) -> Seq<Page<S, G>> {
        self.pages@
    }

    /// The index of the current page.
    pub closed spec fn current_index(&self) -> usize {
        self.current_page_index
    }

    /// Whether the drawing is a notebook rather than a single page.
    pub closed spec fn notebook_mode(&self) -> bool {
        self.is_notebook_mode
    }

    /// The current page is one of the pages, unless there are none: then it is page 0.
    pub open spec fn wf(&self) -> bool {
        if self.pages().len() == 0 {
            self.current_index() == 0
        } else {
            self.current_index() < self.pages().len()
        }
    }

    /// Whether there is a current page.
    pub open spec fn has_pages(&self) -> bool {
        self.pages().len() > 0
    }

    /// Whether the drawing is what a file holds, as it is right after opening the file.
    pub open spec fn shows(&self, document: Document<S, G>) -> bool {
        match document {
            Document::Notebook { pages, current_page_index } => {
                &&& self.pages() == pages@
                &&& self.current_index() == clamped_index(current_page_index, pages@.len())
                &&& self.notebook_mode()
            },
            Document::SinglePage { strokes, text_elements } => {
                &&& self.pages().len() == 1
                &&& self.pages()[0].strokes == strokes
                &&& self.pages()[0].text_elements == text_elements
                &&& self.pages()[0].name@ == imported_name()
                &&& self.current_index() == 0
                &&& !self.notebook_mode()
            },
        }
    }

    /// A drawing of one empty page, named `Page 1`, that is not a notebook yet.
    pub fn new() -> (notebook: Self)
        ensures
            notebook.wf(),
            numbered_pages(notebook.pages(), 1, 1),
            notebook.current_index() == 0,
            !notebook.notebook_mode(),
    {
        let mut pages: Vec<Page<S, G>> = Vec::new();
        pages.push(blank_page(page_name(1)));
        Notebook { pages, current_page_index: 0, is_notebook_mode: false }
    }

    /// The number of pages.
    pub fn page_count(&self) -> (count: usize)
        ensures
            count == self.pages().len(),
    {
        self.pages.len()
    }

    /// The index of the current page.
    pub fn current_page_index(&self) -> (index: usize)
        ensures
            index == self.current_index(),
    {
        self.current_page_index
    }

    /// Whether the drawing is a notebook rather than a single page.
    pub fn is_notebook_mode(&self) -> (mode: bool)
        ensures
            mode == self.notebook_mode(),
    {
        self.is_notebook_mode
    }

    /// All pages, in their order.
    pub fn all_pages(&self) -> (pages: &Vec<Page<S, G>>)
        ensures
            pages@ == self.pages(),
    {
        &self.pages
    }

    /// The current page.
    pub fn current_page(&self) -> (page: &Page<S, G>)
        requires
            self.wf(),
            self.has_pages(),
        ensures
            *page == self.pages()[self.current_index() as int],
    {
        &self.pages[self.current_page_index]
    }

    /// The strokes of the current page.
    pub fn current_strokes(&self) -> (strokes: &Vec<S>)
        requires
            self.wf(),
            self.has_pages(),
        ensures
            *strokes == self.pages()[self.current_index() as int].strokes,
    {
        &self.pages[self.current_page_index].strokes
    }

    /// The text labels of the current page.
    pub fn current_text_elements(&self) -> (elements: &Vec<TextElement<G>>)
        requires
            self.wf(),
            self.has_pages(),
        ensures
            *elements == self.pages()[self.current_index() as int].text_elements,
    {
        &self.pages[self.current_page_index].text_elements
    }

    /// The current page, to change it.
    pub fn current_page_mut(&mut self) -> (page: &mut Page<S, G>)
        requires
            old(self).wf(),
            old(self).has_pages(),
        ensures
            *page == old(self).pages()[old(self).current_index() as int],
            final(self).pages() == old(self).pages().update(old(self).current_index() as int, *final(page)),
            final(self).current_index() == old(self).current_index(),
            final(self).notebook_mode() == old(self).notebook_mode(),
    {
        &mut self.pages[self.current_page_index]
    }

    /// The strokes of the current page, to change them.
    pub fn current_strokes_mut(&mut self) -> (strokes: &mut Vec<S>)
        requires
            old(self).wf(),
            old(self).has_pages(),
        ensures
            *strokes == old(self).pages()[old(self).current_index() as int].strokes,
            final(self).pages() == old(self).pages().update(
                old(self).current_index() as int,
                (Page {
                    strokes: *final(strokes),
                    text_elements: old(self).pages()[old(self).current_index() as int].text_elements,
                    name: old(self).pages()[old(self).current_index() as int].name,
                }),
            ),
            final(self).current_index() == old(self).current_index(),
            final(self).notebook_mode() == old(self).notebook_mode(),
    {
        &mut self.pages[self.current_page_index].strokes
    }

    /// The text labels of the current page, to change them.
    pub fn current_text_elements_mut(&mut self) -> (elements: &mut Vec<TextElement<G>>)
        requires
            old(self).wf(),
            old(self).has_pages(),
        ensures
            *elements == old(self).pages()[old(self).current_index() as int].text_elements,
            final(self).pages() == old(self).pages().update(
                old(self).current_index() as int,
                (Page {
                    strokes: old(self).pages()[old(self).current_index() as int].strokes,
                    text_elements: *final(elements),
                    name: old(self).pages()[old(self).current_index() as int].name,
                }),
            ),
            final(self).current_index() == old(self).current_index(),
            final(self).notebook_mode() == old(self).notebook_mode(),
    {
        &mut self.pages[self.current_page_index].text_elements
    }

    /// Removes the strokes and the text labels of the current page. Its name stays.
    pub fn clear_current_page(&mut self)
        requires
            old(self).wf(),
            old(self).has_pages(),
        ensures
            final(self).pages().len() == old(self).pages().len(),
            forall|i: int|
                0 <= i < old(self).pages().len() && i != old(self).current_index() ==> final(self).pages()[i]
                    == old(self).pages()[i],
            empty_page(
                final(self).pages()[old(self).current_index() as int],
                old(self).pages()[old(self).current_index() as int].name@,
            ),
            final(self).current_index() == old(self).current_index(),
            final(self).notebook_mode() == old(self).notebook_mode(),
    {
        let page = self.current_page_mut();
        page.strokes.clear();
        page.text_elements.clear();
    }

    /// Replaces the drawing by a notebook of `page_count` empty pages, named `Page 1`,
    /// `Page 2` and so on. The first page becomes the current one.
    pub fn create_notebook(&mut self, page_count: usize)
        ensures
            final(self).wf(),
            numbered_pages(final(self).pages(), 1, page_count as nat),
            final(self).current_index() == 0,
            final(self).notebook_mode(),
    {
        let mut pages: Vec<Page<S, G>> = Vec::new();
        let mut made: usize = 0;
        while made < page_count
            invariant
                made <= page_count,
                numbered_pages(pages@, 1, made as nat),
            decreases page_count - made,
        {
            pages.push(blank_page(page_name(made + 1)));
            made = made + 1;
        }
        self.pages = pages;
        self.current_page_index = 0;
        self.is_notebook_mode = true;
    }

    /// Appends an empty page, named by its number. The current page stays.
    pub fn add_new_page(&mut self)
        requires
            old(self).wf(),
            old(self).pages().len() < usize::MAX,
        ensures
            final(self).wf(),
            final(self).pages() == old(self).pages().push(final(self).pages().last()),
            empty_page(final(self).pages().last(), numbered_name(final(self).pages().len())),
            final(self).current_index() == old(self).current_index(),
            final(self).notebook_mode() == old(self).notebook_mode(),
    {
        let page_number = self.pages.len() + 1;
        self.pages.push(blank_page(page_name(page_number)));
        assert(self.pages@ == old(self).pages@.push(self.pages@.last()));
    }

    /// Goes to the page after the current one, if there is one.
    pub fn next_page(&mut self)
        requires
            old(self).wf(),
            old(self).has_pages(),
        ensures
            final(self).wf(),
            final(self).pages() == old(self).pages(),
            final(self).current_index() == (if old(self).current_index() + 1 < old(self).pages().len() {
                (old(self).current_index() + 1) as usize
            } else {
                old(self).current_index()
            }),
            final(self).notebook_mode() == old(self).notebook_mode(),
    {
        if self.current_page_index < self.pages.len() - 1 {
            self.current_page_index = self.current_page_index + 1;
        }
    }

    /// Goes to the page before the current one, if there is one.
    pub fn previous_page(&mut self)
        requires
            old(self).wf(),
        ensures
            final(self).wf(),
            final(self).pages() == old(self).pages(),
            final(self).current_index() == (if old(self).current_index() > 0 {
                (old(self).current_index() - 1) as usize
            } else {
                old(self).current_index()
            }),
            final(self).notebook_mode() == old(self).notebook_mode(),
    {
        if self.current_page_index > 0 {
            self.current_page_index = self.current_page_index - 1;
        }
    }

    /// Replaces the drawing by what a file holds. A notebook comes with its pages and its
    /// current page, the last page where the file names one that is not there. A single
    /// page becomes the only page, named `Imported Page`, of a drawing that is no notebook.
    pub fn open(&mut self, document: Document<S, G>)
        ensures
            final(self).wf(),
            final(self).shows(document),
    {
        match document {
            Document::Notebook { pages, current_page_index } => {
                let count = pages.len();
                self.pages = pages;
                self.current_page_index = if count == 0 {
                    0
                } else if current_page_index < count {
                    current_page_index
                } else {
                    count - 1
                };
                self.is_notebook_mode = true;
            },
            Document::SinglePage { strokes, text_elements } => {
                let mut pages: Vec<Page<S, G>> = Vec::new();
                pages.push(Page { strokes, text_elements, name: String::from_str("Imported Page") });
                self.pages = pages;
                self.current_page_index = 0;
                self.is_notebook_mode = false;
            },
        }
    }
}

} // verus!
