use vstd::prelude::*;
use crate::codec::{capture_named, lemma_percent_encoded_injective, named_capture, percent_encode, percent_encoded};
use crate::error::GalleryError;
use crate::text::{all_digits, bytes_of, decimal_value, parse_decimal};

verus! {

/// One image of the gallery.
#[derive(Debug, PartialEq, Eq)]
pub struct ImageEntry {
    /// Where the image lies on disk.
    pub source_path: String,
    /// The number taken from the file name; it decides the display order.
    pub order: usize,
    /// The percent-encoded file name, the image's public identifier.
    pub key: String,
}

/// An entry as the contracts see it.
pub struct EntryView {
    pub source_path: Seq<char>,
    pub order: nat,
    pub key: Seq<char>,
}

impl View for ImageEntry {
    type V = EntryView;

    open spec fn view(&self) -> EntryView {
        EntryView { source_path: self.source_path@, order: self.order as nat, key: self.key@ }
    }
}

/// No key occurs twice.
pub open spec fn distinct_keys(entries: Seq<EntryView>) -> bool {
    forall|i: int, j: int|
        0 <= i < j < entries.len() ==> (#[trigger] entries[i]).key != (#[trigger] entries[j]).key
}

/// Whether some entry has this key.
pub open spec fn holds_key(entries: Seq<EntryView>, key: Seq<char>) -> bool {
    exists|i: int| 0 <= i < entries.len() && (#[trigger] entries[i]).key == key
}

/// A position at which the key stands; the only one where keys are distinct.
pub open spec fn position_of(entries: Seq<EntryView>, key: Seq<char>) -> int {
    choose|i: int| 0 <= i < entries.len() && (#[trigger] entries[i]).key == key
}

/// The entries after `entry` went in: it takes the place of the entry with
/// its key, or the end where no entry has that key.
pub open spec fn inserted(entries: Seq<EntryView>, entry: EntryView) -> Seq<EntryView> {
    if holds_key(entries, entry.key) {
        entries.update(position_of(entries, entry.key), entry)
    } else {
        entries.push(entry)
    }
}

/// Inserting keeps the keys distinct.
pub proof fn lemma_inserted_distinct(entries: Seq<EntryView>, entry: EntryView)
    requires
        distinct_keys(entries),
    ensures
        distinct_keys(inserted(entries, entry)),
{
    let after = inserted(entries, entry);
    if holds_key(entries, entry.key) {
        let p = position_of(entries, entry.key);
        assert forall|i: int, j: int| 0 <= i < j < after.len() implies (#[trigger] after[i]).key != (
        #[trigger] after[j]).key by {
            assert(after[i].key == entries[i].key);
            assert(after[j].key == entries[j].key);
        }
    } else {
        assert forall|i: int, j: int| 0 <= i < j < after.len() implies (#[trigger] after[i]).key != (
        #[trigger] after[j]).key by {
            if j == entries.len() {
                assert(entries[i].key != entry.key);
            } else {
                assert(after[i] == entries[i]);
                assert(after[j] == entries[j]);
            }
        }
    }
}

/// The images of a gallery, found by key. The entries keep the order in which
/// their keys first went in.
pub struct ImageIndex {
    entries: Vec<ImageEntry>,
}

impl View for ImageIndex {
    type V = Seq<EntryView>;

    closed spec fn view(&self) -> Seq<EntryView> {
        Seq::new(self.entries@.len(), |i: int| self.entries@[i]@)
    }
}

impl ImageIndex {
    /// An index is well formed when no key occurs twice.
    pub open spec fn wf(&self) -> bool {
        distinct_keys(self@)
    }

    /// The empty index.
    pub fn new() -> (index: ImageIndex)
        ensures
            index@ == Seq::<EntryView>::empty(),
            index.wf(),
    {
        let index = ImageIndex { entries: Vec::new() };
        proof {
            assert(index@ =~= Seq::<EntryView>::empty());
        }
        index
    }

    /// The number of entries.
    pub fn len(&self) -> (n: usize)
        ensures
            n == self@.len(),
    {
        self.entries.len()
    }

    /// The entry at a position.
    pub fn entry(&self, position: usize) -> (entry: &ImageEntry)
        requires
            position < self@.len(),
        ensures
            entry@ == self@[position as int],
    {
        &self.entries[position]
    }

    /// The position of the entry with this key.
    pub fn find(&self, key: &String) -> (found: Option<usize>)
        ensures
            match found {
                Some(position) => position < self@.len() && self@[position as int].key == key@,
                None => !holds_key(self@, key@),
            },
    {
        let mut i: usize = 0;
        while i < self.entries.len()
            invariant
                i <= self.entries@.len(),
                self@.len() == self.entries@.len(),
                forall|k: int| 0 <= k < i ==> (#[trigger] self@[k]).key != key@,
            decreases self.entries@.len() - i,
        {
            if self.entries[i].key == *key {
                return Some(i);
            }
            i += 1;
        }
        None
    }

    /// Puts an entry in. An entry with the same key is replaced where it
    /// stands; a new key goes to the end.
    pub fn insert(&mut self, entry: ImageEntry)
        requires
            old(self).wf(),
        ensures
            final(self).wf(),
            final(self)@ == inserted(old(self)@, entry@),
    {
        proof {
            lemma_inserted_distinct(self@, entry@);
        }
        match self.find(&entry.key) {
            Some(position) => {
                proof {
                    assert(holds_key(self@, entry@.key));
                    assert(position_of(self@, entry@.key) == position);
                }
                self.entries.set(position, entry);
                proof {
                    assert(self@ =~= inserted(old(self)@, entry@));
                }
            },
            None => {
                self.entries.push(entry);
                proof {
                    assert(self@ =~= inserted(old(self)@, entry@));
                }
            },
        }
    }
}

/// The shape of an eligible file name: some characters that are no digits,
/// then the number, a dot and the extension.
pub const NUMBER_PATTERN: &'static str = r"[^0-9]+(?<number>\d+\d*)\.\S+";

/// The name of the group that takes the number.
pub const NUMBER_GROUP: &'static str = "number";

/// The number that a captured run of digits denotes, where it is made of
/// ASCII digits and fits the machine word.
pub open spec fn parsed_order(digits: Seq<char>) -> Option<nat> {
    let bytes = bytes_of(digits);
    if bytes.len() > 0 && all_digits(bytes) && decimal_value(bytes) <= usize::MAX {
        Some(decimal_value(bytes))
    } else {
        None
    }
}

/// The order that a capture gives: that of its digits, where there are any.
pub open spec fn order_of_capture(capture: Option<Option<Seq<char>>>) -> Option<nat> {
    match capture {
        Some(Some(digits)) => parsed_order(digits),
        _ => None,
    }
}

/// A capture as the contracts see it.
pub open spec fn capture_view(capture: Option<Option<String>>) -> Option<Option<Seq<char>>> {
    match capture {
        None => None,
        Some(None) => Some(None),
        Some(Some(found)) => Some(Some(found@)),
    }
}

/// Turns what the pattern captured into the order of the file, or into
/// `UnparsableFilename` where nothing was captured or the digits are no
/// number that fits.
pub fn order_from_capture(capture: &Option<Option<String>>) -> (res: Result<usize, GalleryError>)
    ensures
        match order_of_capture(capture_view(*capture)) {
            Some(order) => res == Ok::<usize, GalleryError>(order as usize),
            None => res == Err::<usize, GalleryError>(GalleryError::UnparsableFilename),
        },
{
    match capture {
        Some(Some(digits)) => {
            match parse_decimal(digits.as_str().as_bytes()) {
                Some(order) => Ok(order),
                None => Err(GalleryError::UnparsableFilename),
            }
        },
        _ => Err(GalleryError::UnparsableFilename),
    }
}

/// The order of a file by its name, where the name has the eligible shape.
pub open spec fn spec_file_order(name: Seq<char>) -> Option<nat> {
    order_of_capture(named_capture(NUMBER_PATTERN@, NUMBER_GROUP@, name))
}

/// Reads the order from a file name: the number right before the extension.
pub fn file_order(name: &str) -> (res: Result<usize, GalleryError>)
    ensures
        match spec_file_order(name@) {
            Some(order) => res == Ok::<usize, GalleryError>(order as usize),
            None => res == Err::<usize, GalleryError>(GalleryError::UnparsableFilename),
        },
{
    let capture = capture_named(NUMBER_PATTERN, NUMBER_GROUP, name);
    order_from_capture(&capture)
}

/// The key of a file: its name, percent-encoded.
pub open spec fn spec_image_key(name: Seq<char>) -> Seq<char> {
    percent_encoded(bytes_of(name))
}

/// Different file names get different keys.
pub proof fn lemma_keys_tell_names_apart(first: Seq<char>, second: Seq<char>)
    requires
        first != second,
    ensures
        spec_image_key(first) != spec_image_key(second),
{
    if spec_image_key(first) == spec_image_key(second) {
        lemma_percent_encoded_injective(bytes_of(first), bytes_of(second));
        vstd::utf8::encode_utf8_decode_utf8(first);
        vstd::utf8::encode_utf8_decode_utf8(second);
    }
}

/// Derives the public identifier of an image from its file name.
pub fn image_key(name: &str) -> (key: String)
    ensures
        key@ == spec_image_key(name@),
{
    percent_encode(name)
}

/// A file of the source directory that is no directory itself.
#[derive(Debug, PartialEq, Eq)]
pub struct SourceFile {
    /// The file's name within the directory.
    pub name: String,
    /// The path by which the file is read.
    pub path: String,
}

/// A source file as the contracts see it.
pub struct FileView {
    pub name: Seq<char>,
    pub path: Seq<char>,
}

impl View for SourceFile {
    type V = FileView;

    open spec fn view(&self) -> FileView {
        FileView { name: self.name@, path: self.path@ }
    }
}

/// The views of a list of files.
pub open spec fn file_views(files: Seq<SourceFile>) -> Seq<FileView> {
    Seq::new(files.len(), |i: int| files[i]@)
}

/// The entry that an eligible file gets.
pub open spec fn entry_for(file: FileView) -> EntryView {
    EntryView {
        source_path: file.path,
        order: spec_file_order(file.name).unwrap(),
        key: spec_image_key(file.name),
    }
}

/// What one file's name yields: its order, or the reason it was left out.
pub open spec fn file_outcome(file: FileView) -> Result<usize, GalleryError> {
    match spec_file_order(file.name) {
        Some(order) => Ok(order as usize),
        None => Err(GalleryError::UnparsableFilename),
    }
}

/// The entries after the files were taken one by one, in their order: each
/// eligible file is inserted, each other file is passed over.
pub open spec fn scanned_entries(files: Seq<FileView>) -> Seq<EntryView>
    decreases files.len(),
{
    if files.len() == 0 {
        Seq::<EntryView>::empty()
    } else if spec_file_order(files.last().name).is_some() {
        inserted(scanned_entries(files.drop_last()), entry_for(files.last()))
    } else {
        scanned_entries(files.drop_last())
    }
}

/// What a scan of the source directory found.
pub struct ScanReport {
    /// The images that could be indexed.
    pub index: ImageIndex,
    /// For each file, in the order given: its order, or why it was left out.
    pub outcomes: Vec<Result<usize, GalleryError>>,
}

/// Indexes the files of a directory. Each file is judged by itself: one whose
/// name holds no number is reported in `outcomes` and does not stop the rest.
pub fn scan(files: &Vec<SourceFile>) -> (report: ScanReport)
    ensures
        report.index.wf(),
        report.index@ == scanned_entries(file_views(files@)),
        report.outcomes@.len() == files@.len(),
        forall|i: int|
            0 <= i < files@.len() ==> #[trigger] report.outcomes@[i] == file_outcome(files@[i]@),
{
    let mut index = ImageIndex::new();
    let mut outcomes: Vec<Result<usize, GalleryError>> = Vec::new();
    let mut i: usize = 0;
    proof {
        assert(file_views(files@).take(0) =~= Seq::<FileView>::empty());
    }
    while i < files.len()
        invariant
            i <= files@.len(),
            index.wf(),
            index@ == scanned_entries(file_views(files@).take(i as int)),
            outcomes@.len() == i,
            forall|k: int| 0 <= k < i ==> #[trigger] outcomes@[k] == file_outcome(files@[k]@),
        decreases files@.len() - i,
    {
        let file = &files[i];
        proof {
            let views = file_views(files@);
            assert(views.take(i + 1).drop_last() =~= views.take(i as int));
            assert(views.take(i + 1).last() == file@);
        }
        let outcome = file_order(file.name.as_str());
        match outcome {
            Ok(order) => {
                let key = image_key(file.name.as_str());
                index.insert(ImageEntry { source_path: file.path.clone(), order, key });
            },
            Err(_) => {},
        }
        outcomes.push(outcome);
        i += 1;
    }
    proof {
        assert(file_views(files@).take(i as int) =~= file_views(files@));
    }
    ScanReport { index, outcomes }
}

/// With every name eligible and no name twice, as in the listing of one
/// directory, the index holds exactly one entry per file, in the files'
/// order, and each entry's order is the number read from its file's name.
pub proof fn lemma_one_entry_per_file(files: Seq<FileView>)
    requires
        forall|i: int| 0 <= i < files.len() ==> spec_file_order((#[trigger] files[i]).name).is_some(),
        forall|i: int, j: int|
            0 <= i < j < files.len() ==> (#[trigger] files[i]).name != (#[trigger] files[j]).name,
    ensures
        scanned_entries(files).len() == files.len(),
        forall|i: int|
            0 <= i < files.len() ==> #[trigger] scanned_entries(files)[i] == entry_for(files[i]),
    decreases files.len(),
{
    if files.len() > 0 {
        let front = files.drop_last();
        assert forall|i: int| 0 <= i < front.len() implies spec_file_order(
            (#[trigger] front[i]).name,
        ).is_some() by {
            assert(front[i] == files[i]);
        }
        assert forall|i: int, j: int| 0 <= i < j < front.len() implies (#[trigger] front[i]).name != (
        #[trigger] front[j]).name by {
            assert(front[i] == files[i]);
            assert(front[j] == files[j]);
        }
        lemma_one_entry_per_file(front);
        let before = scanned_entries(front);
        let entry = entry_for(files.last());
        assert(!holds_key(before, entry.key)) by {
            if holds_key(before, entry.key) {
                let p = position_of(before, entry.key);
                assert(before[p] == entry_for(front[p]));
                assert(front[p] == files[p]);
                assert(files[files.len() - 1] == files.last());
                lemma_keys_tell_names_apart(files[p].name, files.last().name);
            }
        }
        assert(scanned_entries(files) == before.push(entry));
        assert forall|i: int| 0 <= i < files.len() implies #[trigger] scanned_entries(files)[i]
            == entry_for(files[i]) by {
            if i < front.len() {
                assert(front[i] == files[i]);
            }
        }
    }
}

} // verus!
