//! The home-menu document: collections, their rows of items, titles and images.
//!
//! JSON objects of the document are held as association lists in document order.

use vstd::prelude::*;

verus! {

/// The value of the first entry whose key is `key`, if any.
pub open spec fn lookup<V>(entries: Seq<(String, V)>, key: Seq<char>) -> Option<V>
    decreases entries.len(),
{
    if entries.len() == 0 {
        None
    } else if entries[0].0@ == key {
        Some(entries[0].1)
    } else {
        lookup(entries.drop_first(), key)
    }
}

/// Finds the first entry whose key is `key`.
pub fn find<'a, V>(entries: &'a Vec<(String, V)>, key: &str) -> (r: Option<&'a V>)
    ensures
        match r {
            Some(v) => lookup(entries@, key@) == Some(*v),
            None => lookup(entries@, key@) is None,
        },
{
    let wanted = key.to_owned();
    let mut i: usize = 0;
    assert(entries@.skip(0) =~= entries@);
    while i < entries.len()
        invariant
            i <= entries.len(),
            wanted@ == key@,
            lookup(entries@, key@) == lookup(entries@.skip(i as int), key@),
        decreases entries.len() - i,
    {
        assert(entries@.skip(i as int)[0] == entries@[i as int]);
        if entries[i].0 == wanted {
            return Some(&entries[i].1);
        }
        assert(entries@.skip(i as int).drop_first() =~= entries@.skip(i + 1));
        i = i + 1;
    }
    None
}

/// The document of the home menu.
#[derive(Debug)]
pub struct Home {
    pub data: Vec<(String, Collection)>,
}

/// The document of a set that is fetched on its own.
#[derive(Debug)]
pub struct RefSet {
    pub data: Vec<(String, ContentSet)>,
}

/// A collection of menu data.
#[derive(Debug)]
pub struct Collection {
    /// The collection kind and its own fields.
    pub inner: CollectionInner,
    /// Image tiles to be displayed, keyed by name.
    pub image: Vec<(String, ImageTile)>,
    /// Text data to be displayed.
    pub text: Text,
    /// Miniature video art for the collection, if any.
    pub video_art: Vec<VideoArt>,
}

/// The kinds of collection.
#[derive(Clone, Copy, Debug, PartialEq, Eq, Structural)]
pub enum CollectionKind {
    /// A series of videos, e.g. a television series.
    DmcSeries,
    /// A single video, e.g. a movie.
    DmcVideo,
    /// A collection of rows of other collections.
    Standard,
}

/// The fields particular to each kind of collection.
#[derive(Debug)]
pub enum CollectionInner {
    DmcSeries { series_id: u128, encoded_series_id: String },
    DmcVideo { program_type: ProgramType },
    StandardCollection { collection_id: u128, containers: Vec<Container> },
}

/// The kinds of video program.
#[derive(Clone, Copy, Debug, PartialEq, Eq, Structural)]
pub enum ProgramType {
    /// A standard film.
    Movie,
    /// A short-form video.
    ShortForm,
}

impl Collection {
    /// The kind of this collection.
    pub fn kind(&self) -> (k: CollectionKind)
        ensures
            k == match self.inner {
                CollectionInner::DmcSeries { .. } => CollectionKind::DmcSeries,
                CollectionInner::DmcVideo { .. } => CollectionKind::DmcVideo,
                CollectionInner::StandardCollection { .. } => CollectionKind::Standard,
            },
    {
        match self.inner {
            CollectionInner::DmcSeries { .. } => CollectionKind::DmcSeries,
            CollectionInner::DmcVideo { .. } => CollectionKind::DmcVideo,
            CollectionInner::StandardCollection { .. } => CollectionKind::Standard,
        }
    }

    /// The rows of a standard collection; `None` for any other kind.
    pub fn containers(&self) -> (r: Option<&[Container]>)
        ensures
            match self.inner {
                CollectionInner::StandardCollection { containers, .. } => r is Some && r->0@
                    == containers@,
                _ => r is None,
            },
    {
        match &self.inner {
            CollectionInner::StandardCollection { containers, .. } => Some(containers.as_slice()),
            _ => None,
        }
    }

    /// The images to be displayed, keyed by name.
    pub fn images(&self) -> (r: &Vec<(String, ImageTile)>)
        ensures
            r == &self.image,
    {
        &self.image
    }

    /// The text to be displayed.
    pub fn text(&self) -> (r: &Text)
        ensures
            r == &self.text,
    {
        &self.text
    }
}

/// One row of a standard collection.
#[derive(Debug)]
pub struct Container {
    pub set: ContentSet,
}

/// The items of one row.
#[derive(Debug)]
pub enum ContentSet {
    /// A curated set of menu items.
    CuratedSet { items: Vec<Collection>, meta: Meta, text: Text },
    /// A set whose items must be fetched on their own.
    SetRef { ref_id: u128, text: Text },
}

impl ContentSet {
    /// The text of the set, whichever its kind.
    pub fn text(&self) -> (r: &Text)
        ensures
            r == match self {
                ContentSet::CuratedSet { text, .. } => text,
                ContentSet::SetRef { text, .. } => text,
            },
    {
        match self {
            ContentSet::CuratedSet { text, .. } => text,
            ContentSet::SetRef { text, .. } => text,
        }
    }
}

/// Paging data of a curated set.
#[derive(Clone, Copy, Debug)]
pub struct Meta {
    pub hits: u32,
    pub offset: u16,
    pub page_size: u32,
}

/// Background video art.
#[derive(Debug)]
pub struct VideoArt {
    pub media_metadata: MediaMetadata,
}

/// The addresses of background videos.
#[derive(Debug)]
pub struct MediaMetadata {
    pub urls: Vec<VideoUrl>,
}

/// The address of one video file.
#[derive(Debug)]
pub struct VideoUrl {
    pub url: String,
}

/// An image scaled to several aspect ratios, keyed by the ratio (`"1.78"`).
#[derive(Debug)]
pub struct ImageTile(pub Vec<(String, ImageKind)>);

/// The kind of item an image was made for.
#[derive(Debug)]
pub enum ImageKind {
    Default { default: ImageContent },
    Program { default: ImageContent },
    Series { default: ImageContent },
}

impl ImageKind {
    /// The image, whatever kind of item it was made for.
    pub open spec fn content(self) -> ImageContent {
        match self {
            ImageKind::Default { default } => default,
            ImageKind::Program { default } => default,
            ImageKind::Series { default } => default,
        }
    }
}

impl ImageTile {
    /// The image content scaled to the given aspect ratio: that of the first entry
    /// for the ratio, whatever kind of item it was made for.
    pub fn get(&self, aspect_ratio: &str) -> (r: Option<&ImageContent>)
        ensures
            match r {
                Some(c) => lookup(self.0@, aspect_ratio@) matches Some(k) && k.content() == *c,
                None => lookup(self.0@, aspect_ratio@) is None,
            },
    {
        match find(&self.0, aspect_ratio) {
            Some(kind) => match kind {
                ImageKind::Default { default } => Some(default),
                ImageKind::Program { default } => Some(default),
                ImageKind::Series { default } => Some(default),
            },
            None => None,
        }
    }
}

/// A retrievable image.
#[derive(Debug)]
pub struct ImageContent {
    /// Height of the full-resolution image.
    pub master_height: u32,
    /// Width of the full-resolution image.
    pub master_width: u32,
    /// Where the image can be retrieved.
    pub url: String,
}

/// The text of a collection or set.
#[derive(Debug)]
pub struct Text {
    pub title: Titles,
}

/// The kinds of title.
#[derive(Clone, Copy, Debug, PartialEq, Eq, Hash, Structural)]
pub enum TitleKind {
    /// The full title, shown to the user.
    Full,
    /// The slug title, used by business logic.
    Slug,
}

/// The text of one or more titles, keyed by their kind.
#[derive(Debug)]
pub struct Titles(pub Vec<(TitleKind, TitleEntry)>);

/// The kind of item a title was written for.
#[derive(Debug)]
pub enum TitleEntry {
    Collection { default: TextContent },
    Program { default: TextContent },
    Series { default: TextContent },
    ForSet { default: TextContent },
}

impl TitleEntry {
    /// The text, whatever kind of item it was written for.
    pub open spec fn content(self) -> TextContent {
        match self {
            TitleEntry::Collection { default } => default,
            TitleEntry::Program { default } => default,
            TitleEntry::Series { default } => default,
            TitleEntry::ForSet { default } => default,
        }
    }
}

/// The entry of the first title of kind `kind`, if any.
pub open spec fn title_lookup(entries: Seq<(TitleKind, TitleEntry)>, kind: TitleKind) -> Option<
    TitleEntry,
>
    decreases entries.len(),
{
    if entries.len() == 0 {
        None
    } else if entries[0].0 == kind {
        Some(entries[0].1)
    } else {
        title_lookup(entries.drop_first(), kind)
    }
}

impl Titles {
    /// The text of the first title of the given kind, if any.
    pub fn get(&self, kind: TitleKind) -> (r: Option<&TextContent>)
        ensures
            match r {
                Some(c) => title_lookup(self.0@, kind) matches Some(e) && e.content() == *c,
                None => title_lookup(self.0@, kind) is None,
            },
    {
        let mut i: usize = 0;
        assert(self.0@.skip(0) =~= self.0@);
        while i < self.0.len()
            invariant
                i <= self.0@.len(),
                title_lookup(self.0@, kind) == title_lookup(self.0@.skip(i as int), kind),
            decreases self.0.len() - i,
        {
            assert(self.0@.skip(i as int)[0] == self.0@[i as int]);
            if self.0[i].0 == kind {
                return match &self.0[i].1 {
                    TitleEntry::Collection { default } => Some(default),
                    TitleEntry::Program { default } => Some(default),
                    TitleEntry::Series { default } => Some(default),
                    TitleEntry::ForSet { default } => Some(default),
                };
            }
            assert(self.0@.skip(i as int).drop_first() =~= self.0@.skip(i + 1));
            i = i + 1;
        }
        None
    }
}

/// A text and its language.
#[derive(Debug)]
pub struct TextContent {
    /// The text to display.
    pub content: String,
    /// Its language.
    pub language: Language,
}

/// The supported languages.
#[derive(Clone, Copy, Debug, PartialEq, Eq, Structural)]
pub enum Language {
    /// English (US).
    English,
}

} // verus!
