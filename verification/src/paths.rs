//! Where files are, as far as the program's rules look at it.
//!
//! A path is a base directory, taken as it is, and the names joined to it. The
//! rules read and replace names; what a base means is up to the file system, and
//! its name need not be Unicode.

use vstd::prelude::*;

use crate::text;

verus! {

/// A directory: what a user is shown of it, and the bytes of its name as the
/// machine has it. Where there are none, it is what is shown.
#[derive(Debug, Clone, PartialEq, Eq)]
pub struct Place {
    pub shown: String,
    pub exact: Option<Vec<u8>>,
}

/// What a directory is.
#[verifier::ext_equal]
pub struct PlaceView {
    pub shown: Seq<char>,
    pub exact: Option<Seq<u8>>,
}

impl View for Place {
    type V = PlaceView;

    open spec fn view(&self) -> PlaceView {
        PlaceView {
            shown: self.shown@,
            exact: match self.exact {
                Some(bytes) => Some(bytes@),
                None => None,
            },
        }
    }
}

impl PlaceView {
    /// The directory that goes by this name.
    pub open spec fn named(name: Seq<char>) -> PlaceView {
        PlaceView { shown: name, exact: None }
    }
}

/// Whether a directory, where there is one, is held with the bytes of its name.
pub open spec fn held_exactly(place: Option<PlaceView>) -> bool {
    place matches Some(p) ==> p.exact is Some
}

/// What an optional directory is.
pub open spec fn place_view(place: Option<Place>) -> Option<PlaceView> {
    match place {
        Some(p) => Some(p@),
        None => None,
    }
}

/// What an optional directory is.
pub open spec fn place_ref_view(place: Option<&Place>) -> Option<PlaceView> {
    match place {
        Some(p) => Some(p@),
        None => None,
    }
}

impl Place {
    /// The directory that goes by this name.
    pub fn named(name: &str) -> (r: Self)
        ensures
            r@ == PlaceView::named(name@),
    {
        Place { shown: name.to_owned(), exact: None }
    }

    /// The same directory.
    pub fn duplicate(&self) -> (r: Self)
        ensures
            r@ == self@,
    {
        let exact: Option<Vec<u8>> = match &self.exact {
            Some(bytes) => {
                let mut copy: Vec<u8> = Vec::new();
                for i in 0..bytes.len()
                    invariant
                        copy@ == bytes@.take(i as int),
                {
                    copy.push(bytes[i]);
                    assert(copy@ == bytes@.take(i + 1));
                }
                assert(bytes@.take(bytes@.len() as int) == bytes@);
                Some(copy)
            },
            None => None,
        };
        Place { shown: self.shown.clone(), exact }
    }
}

/// A path: names joined, one after another, to a base directory.
#[derive(Debug, Clone, PartialEq, Eq)]
pub struct FilePath {
    pub base: Place,
    pub parts: Vec<String>,
}

/// What a path is made of.
#[verifier::ext_equal]
pub struct PathView {
    pub base: PlaceView,
    pub parts: Seq<Seq<char>>,
}

impl View for FilePath {
    type V = PathView;

    open spec fn view(&self) -> PathView {
        PathView { base: self.base@, parts: text::views(self.parts@) }
    }
}

impl PathView {
    /// The name of the file itself, where the path has one.
    pub open spec fn name(self) -> Option<Seq<char>> {
        if self.parts.len() > 0 {
            Some(self.parts.last())
        } else {
            None
        }
    }

    /// The path with one more name joined to it.
    pub open spec fn joined(self, name: Seq<char>) -> PathView {
        PathView { base: self.base, parts: self.parts.push(name) }
    }

    /// The path with the file's name replaced, or given where it had none.
    pub open spec fn renamed(self, name: Seq<char>) -> PathView {
        if self.parts.len() > 0 {
            PathView { base: self.base, parts: self.parts.drop_last().push(name) }
        } else {
            self.joined(name)
        }
    }

    /// The directory that the file is in, where the path has a file name.
    pub open spec fn parent(self) -> Option<PathView> {
        if self.parts.len() > 0 {
            Some(PathView { base: self.base, parts: self.parts.drop_last() })
        } else {
            None
        }
    }

    /// What a user is shown of a path: the file's name, or the base where it has
    /// none.
    pub open spec fn shown(self) -> Seq<char> {
        match self.name() {
            Some(name) => name,
            None => self.base.shown,
        }
    }

    /// The file's name without its extension, and nothing where it has no name.
    pub open spec fn stem(self) -> Seq<char> {
        match self.name() {
            Some(name) => stem_of(name),
            None => Seq::empty(),
        }
    }
}

/// Where the last dot of a name stands, and -1 where it has none.
pub open spec fn last_dot(name: Seq<char>) -> int
    decreases name.len(),
{
    if name.len() == 0 {
        -1
    } else if name.last() == '.' {
        name.len() - 1
    } else {
        last_dot(name.drop_last())
    }
}

/// A file's name without its extension: what stands before its last dot. A dot
/// at the very front begins no extension.
pub open spec fn stem_of(name: Seq<char>) -> Seq<char> {
    if last_dot(name) > 0 {
        name.take(last_dot(name))
    } else {
        name
    }
}

/// A file's extension: what stands behind its last dot. A dot at the very front
/// begins no extension.
pub open spec fn extension_of(name: Seq<char>) -> Option<Seq<char>> {
    if last_dot(name) > 0 {
        Some(name.skip(last_dot(name) + 1))
    } else {
        None
    }
}

/// The last dot is where `last_dot` says it is.
pub proof fn lemma_last_dot(name: Seq<char>)
    ensures
        -1 <= last_dot(name) < name.len(),
        last_dot(name) >= 0 ==> name[last_dot(name)] == '.',
        forall|i: int| last_dot(name) < i < name.len() ==> name[i] != '.',
    decreases name.len(),
{
    if name.len() > 0 && name.last() != '.' {
        lemma_last_dot(name.drop_last());
        assert forall|i: int| last_dot(name) < i < name.len() implies name[i] != '.' by {
            if i < name.len() - 1 {
                assert(name[i] == name.drop_last()[i]);
            }
        }
    }
}

fn find_last_dot(c: &Vec<char>) -> (r: Option<usize>)
    ensures
        match r {
            Some(i) => last_dot(c@) == i,
            None => last_dot(c@) == -1,
        },
{
    let mut n: usize = c.len();
    assert(c@.take(n as int) == c@);
    while n > 0
        invariant
            n <= c@.len(),
            last_dot(c@.take(n as int)) == last_dot(c@),
        decreases n,
    {
        assert(c@.take(n as int).drop_last() == c@.take(n - 1));
        if c[n - 1] == '.' {
            return Some(n - 1);
        }
        n -= 1;
    }
    None
}

/// A file's name without its extension.
pub fn file_stem(name: &str) -> (r: String)
    ensures
        r@ == stem_of(name@),
{
    let c: Vec<char> = text::chars_of(name);
    match find_last_dot(&c) {
        Some(i) if i > 0 => {
            proof {
                lemma_last_dot(name@);
            }
            text::string_of(c.as_slice(), 0, i)
        },
        _ => name.to_owned(),
    }
}

/// A file's extension, where it has one.
pub fn extension(name: &str) -> (r: Option<String>)
    ensures
        text::view_of(r) == extension_of(name@),
{
    let c: Vec<char> = text::chars_of(name);
    let n: usize = c.len();
    match find_last_dot(&c) {
        Some(i) if i > 0 => {
            proof {
                lemma_last_dot(name@);
            }
            let r: String = text::string_of(c.as_slice(), i + 1, n);
            assert(r@ == name@.skip(i + 1));
            Some(r)
        },
        _ => None,
    }
}

impl FilePath {
    /// The path that is the directory `base` itself.
    pub fn in_place(base: Place) -> (r: Self)
        ensures
            r@ == (PathView { base: base@, parts: Seq::empty() }),
    {
        let r = FilePath { base, parts: Vec::new() };
        assert(r@ == (PathView { base: base@, parts: Seq::empty() }));
        r
    }

    /// The path that is the directory of that name itself.
    pub fn at(base: &str) -> (r: Self)
        ensures
            r@ == (PathView { base: PlaceView::named(base@), parts: Seq::empty() }),
    {
        FilePath::in_place(Place::named(base))
    }

    /// Another path to the same place.
    pub fn duplicate(&self) -> (r: Self)
        ensures
            r@ == self@,
    {
        let mut parts: Vec<String> = Vec::new();
        for i in 0..self.parts.len()
            invariant
                text::views(parts@) == text::views(self.parts@).take(i as int),
        {
            let ghost before = text::views(parts@);
            parts.push(self.parts[i].clone());
            assert(text::views(parts@) == before.push(self.parts@[i as int]@));
            assert(text::views(parts@) == text::views(self.parts@).take(i + 1));
        }
        let r = FilePath { base: self.base.duplicate(), parts };
        assert(r@ == self@);
        r
    }

    /// The name of the file itself, where the path has one.
    pub fn file_name(&self) -> (r: Option<String>)
        ensures
            text::view_of(r) == self@.name(),
    {
        let n: usize = self.parts.len();
        if n > 0 {
            Some(self.parts[n - 1].clone())
        } else {
            None
        }
    }

    /// The file's name without its extension, and nothing where it has no name.
    pub fn stem(&self) -> (r: String)
        ensures
            r@ == self@.stem(),
    {
        match self.file_name() {
            Some(name) => file_stem(name.as_str()),
            None => String::new(),
        }
    }

    /// The directory that the file is in, where the path has a file name.
    pub fn parent(&self) -> (r: Option<Self>)
        ensures
            match r {
                Some(dir) => self@.parent() == Some(dir@),
                None => self@.parent() is None,
            },
    {
        let n: usize = self.parts.len();
        if n == 0 {
            return None;
        }
        let mut r: FilePath = self.duplicate();
        let ghost before = r.parts@;
        r.parts.truncate(n - 1);
        assert(text::views(r.parts@) == text::views(before).drop_last());
        Some(r)
    }

    /// What a user is shown of a path: the file's name, or the base where it has
    /// none.
    pub fn shown_name(&self) -> (r: String)
        ensures
            r@ == self@.shown(),
    {
        match self.file_name() {
            Some(name) => name,
            None => self.base.shown.clone(),
        }
    }

    /// The path with one more name joined to it.
    pub fn join(&self, name: &str) -> (r: Self)
        ensures
            r@ == self@.joined(name@),
    {
        let mut r: FilePath = self.duplicate();
        let ghost before = r.parts@;
        r.parts.push(name.to_owned());
        assert(text::views(r.parts@) == text::views(before).push(name@));
        r
    }

    /// The path with the file's name replaced, or given where it had none.
    pub fn with_file_name(&self, name: &str) -> (r: Self)
        ensures
            r@ == self@.renamed(name@),
    {
        let mut r: FilePath = self.duplicate();
        let ghost before = r.parts@;
        if r.parts.len() > 0 {
            let n: usize = r.parts.len();
            r.parts.set(n - 1, name.to_owned());
            assert(text::views(r.parts@) == text::views(before).drop_last().push(name@));
        } else {
            r.parts.push(name.to_owned());
            assert(text::views(r.parts@) == text::views(before).push(name@));
        }
        r
    }
}

/// What stands behind the last dot of a name is its extension, and what stands
/// before it the rest; a name without a dot, or with one at the very front only,
/// has none.
pub proof fn law_names_and_extensions(front: Seq<char>, extension: Seq<char>)
    requires
        text::free_of(extension, '.'),
    ensures
        front.len() > 0 ==> extension_of(front + seq!['.'] + extension) == Some(extension)
            && stem_of(front + seq!['.'] + extension) == front,
        extension_of(extension) is None,
        stem_of(extension) == extension,
        extension_of(seq!['.'] + extension) is None,
        stem_of(seq!['.'] + extension) == seq!['.'] + extension,
{
    let name = front + seq!['.'] + extension;
    lemma_last_dot(name);
    assert(name[front.len() as int] == '.');
    if last_dot(name) > front.len() {
        assert(name[last_dot(name)] == extension[last_dot(name) - front.len() - 1]);
    }
    assert(last_dot(name) == front.len());
    assert(name.skip(front.len() as int + 1) == extension);
    assert(name.take(front.len() as int) == front);
    lemma_last_dot(extension);
    let hidden = seq!['.'] + extension;
    lemma_last_dot(hidden);
    if last_dot(hidden) > 0 {
        assert(hidden[last_dot(hidden)] == extension[last_dot(hidden) - 1]);
    }
}

} // verus!
