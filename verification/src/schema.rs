//! The tags of `ComicInfo.xml` and their order.
//!
//! Title, number, volume and summary are worked out for each file. Every other simple element of the
//! schema is a field of constant metadata.

use crate::text::same;
use vstd::prelude::*;

verus! {

/// A fixed set of allowed values.
#[derive(Clone, Copy, Debug, PartialEq, Eq, Structural)]
pub enum Choice {
    YesNo,
    Manga,
    AgeRating,
}

/// What the value of a field looks like.
#[derive(Clone, Copy, Debug, PartialEq, Eq, Structural)]
pub enum FieldKind {
    Text,
    /// Digits only, at most `max_digits` of them.
    Numeric { max_digits: usize },
    /// A decimal number between `min` and `max`, with one fractional digit.
    Decimal { min: u32, max: u32 },
    /// One of a fixed set of values, offered as a dropdown.
    Enum(Choice),
}

/// A field of constant metadata.
#[derive(Clone, Copy, Debug)]
pub struct FieldSpec {
    /// The name of the XML tag.
    pub tag: &'static str,
    /// The label shown for the field.
    pub label: &'static str,
    pub kind: FieldKind,
    /// The suggested width of the input box, in points.
    pub width: u32,
    /// What the field is for.
    pub tip: &'static str,
}

/// The values of a choice.
pub open spec fn choice_values(c: Choice) -> Seq<Seq<char>> {
    match c {
        Choice::YesNo => seq![
            "Unknown"@,
            "No"@,
            "Yes"@,
        ],
        Choice::Manga => seq![
            "Unknown"@,
            "No"@,
            "Yes"@,
            "YesAndRightToLeft"@,
        ],
        Choice::AgeRating => seq![
            "Unknown"@,
            "Adults Only 18+"@,
            "Early Childhood"@,
            "Everyone"@,
            "Everyone 10+"@,
            "G"@,
            "Kids to Adults"@,
            "M"@,
            "MA15+"@,
            "Mature 17+"@,
            "PG"@,
            "R18+"@,
            "Rating Pending"@,
            "Teen"@,
            "X18+"@,
        ],
    }
}

/// The values of a choice.
pub fn options(c: Choice) -> (r: Vec<&'static str>)
    ensures
        r.deep_view() == choice_values(c),
{
    let r: Vec<&'static str> = match c {
        Choice::YesNo => vec![
            "Unknown",
            "No",
            "Yes",
        ],
        Choice::Manga => vec![
            "Unknown",
            "No",
            "Yes",
            "YesAndRightToLeft",
        ],
        Choice::AgeRating => vec![
            "Unknown",
            "Adults Only 18+",
            "Early Childhood",
            "Everyone",
            "Everyone 10+",
            "G",
            "Kids to Adults",
            "M",
            "MA15+",
            "Mature 17+",
            "PG",
            "R18+",
            "Rating Pending",
            "Teen",
            "X18+",
        ],
    };
    assert(r.deep_view() =~= choice_values(c));
    r
}

/// The tags in the sequence of the schema.
pub open spec fn canonical_order() -> Seq<Seq<char>> {
    seq![
        "Title"@,
        "Series"@,
        "Number"@,
        "Count"@,
        "Volume"@,
        "AlternateSeries"@,
        "AlternateNumber"@,
        "AlternateCount"@,
        "Summary"@,
        "Notes"@,
        "Year"@,
        "Month"@,
        "Day"@,
        "Writer"@,
        "Penciller"@,
        "Inker"@,
        "Colorist"@,
        "Letterer"@,
        "CoverArtist"@,
        "Editor"@,
        "Translator"@,
        "Publisher"@,
        "Imprint"@,
        "Genre"@,
        "Tags"@,
        "Web"@,
        "PageCount"@,
        "LanguageISO"@,
        "Format"@,
        "BlackAndWhite"@,
        "Manga"@,
        "Characters"@,
        "Teams"@,
        "Locations"@,
        "ScanInformation"@,
        "StoryArc"@,
        "StoryArcNumber"@,
        "SeriesGroup"@,
        "AgeRating"@,
        "CommunityRating"@,
        "MainCharacterOrTeam"@,
        "Review"@,
        "GTIN"@,
    ]
}

/// The tags in the sequence of the schema.
pub fn canonical_tags() -> (r: Vec<&'static str>)
    ensures
        r.deep_view() == canonical_order(),
{
    let r: Vec<&'static str> = vec![
        "Title",
        "Series",
        "Number",
        "Count",
        "Volume",
        "AlternateSeries",
        "AlternateNumber",
        "AlternateCount",
        "Summary",
        "Notes",
        "Year",
        "Month",
        "Day",
        "Writer",
        "Penciller",
        "Inker",
        "Colorist",
        "Letterer",
        "CoverArtist",
        "Editor",
        "Translator",
        "Publisher",
        "Imprint",
        "Genre",
        "Tags",
        "Web",
        "PageCount",
        "LanguageISO",
        "Format",
        "BlackAndWhite",
        "Manga",
        "Characters",
        "Teams",
        "Locations",
        "ScanInformation",
        "StoryArc",
        "StoryArcNumber",
        "SeriesGroup",
        "AgeRating",
        "CommunityRating",
        "MainCharacterOrTeam",
        "Review",
        "GTIN",
    ];
    assert(r.deep_view() =~= canonical_order());
    r
}

/// The fields of constant metadata.
pub open spec fn field_table() -> Seq<FieldSpec> {
    seq![
        FieldSpec {
            tag: "Series",
            label: "Series",
            kind: FieldKind::Text,
            width: 230,
            tip: "Title of the series the book is part of.",
        },
        FieldSpec {
            tag: "Count",
            label: "Count",
            kind: FieldKind::Numeric { max_digits: 4 },
            width: 70,
            tip: "Total number of chapters/volumes/issues in the series.",
        },
        FieldSpec {
            tag: "AlternateSeries",
            label: "Alt. Series",
            kind: FieldKind::Text,
            width: 230,
            tip: "Some books are part of cross-over story arcs and can specify an alternate series.",
        },
        FieldSpec {
            tag: "AlternateNumber",
            label: "Alt. Number",
            kind: FieldKind::Text,
            width: 100,
            tip: "Number of the book within its alternate series.",
        },
        FieldSpec {
            tag: "AlternateCount",
            label: "Alt. Count",
            kind: FieldKind::Numeric { max_digits: 4 },
            width: 70,
            tip: "Total number of books in the alternate series.",
        },
        FieldSpec {
            tag: "SeriesGroup",
            label: "Series Group",
            kind: FieldKind::Text,
            width: 230,
            tip: "A larger collection or imprint grouping this series belongs to.",
        },
        FieldSpec {
            tag: "Notes",
            label: "Notes",
            kind: FieldKind::Text,
            width: 300,
            tip: "Free text field, usually used to store information about the application that created the file.",
        },
        FieldSpec {
            tag: "Year",
            label: "Year",
            kind: FieldKind::Numeric { max_digits: 4 },
            width: 70,
            tip: "Default publication year.",
        },
        FieldSpec {
            tag: "Month",
            label: "Month",
            kind: FieldKind::Numeric { max_digits: 2 },
            width: 50,
            tip: "Default publication month (1-12).",
        },
        FieldSpec {
            tag: "Day",
            label: "Day",
            kind: FieldKind::Numeric { max_digits: 2 },
            width: 50,
            tip: "Default publication day.",
        },
        FieldSpec {
            tag: "Writer",
            label: "Writer",
            kind: FieldKind::Text,
            width: 230,
            tip: "Person or organization responsible for creating the scenario.",
        },
        FieldSpec {
            tag: "Penciller",
            label: "Penciller",
            kind: FieldKind::Text,
            width: 230,
            tip: "Person or organization responsible for drawing the art.",
        },
        FieldSpec {
            tag: "Inker",
            label: "Inker",
            kind: FieldKind::Text,
            width: 230,
            tip: "Person or organization responsible for inking the pencil art.",
        },
        FieldSpec {
            tag: "Colorist",
            label: "Colorist",
            kind: FieldKind::Text,
            width: 230,
            tip: "Person or organization responsible for applying color to drawings.",
        },
        FieldSpec {
            tag: "Letterer",
            label: "Letterer",
            kind: FieldKind::Text,
            width: 230,
            tip: "Person or organization responsible for drawing text and speech bubbles.",
        },
        FieldSpec {
            tag: "CoverArtist",
            label: "Cover Artist",
            kind: FieldKind::Text,
            width: 230,
            tip: "Person or organization responsible for drawing the cover art.",
        },
        FieldSpec {
            tag: "Editor",
            label: "Editor",
            kind: FieldKind::Text,
            width: 230,
            tip: "Person or organization revising or elucidating the content.",
        },
        FieldSpec {
            tag: "Translator",
            label: "Translator",
            kind: FieldKind::Text,
            width: 230,
            tip: "Person or organization responsible for translating the text.",
        },
        FieldSpec {
            tag: "Publisher",
            label: "Publisher",
            kind: FieldKind::Text,
            width: 230,
            tip: "Publisher names, comma-separated.",
        },
        FieldSpec {
            tag: "Imprint",
            label: "Imprint",
            kind: FieldKind::Text,
            width: 230,
            tip: "Publishing imprint -- a brand or label under the main publisher.",
        },
        FieldSpec {
            tag: "Genre",
            label: "Genre",
            kind: FieldKind::Text,
            width: 230,
            tip: "Genres, comma-separated.",
        },
        FieldSpec {
            tag: "Tags",
            label: "Tags",
            kind: FieldKind::Text,
            width: 230,
            tip: "Free-form tags, comma-separated -- distinct from Genre.",
        },
        FieldSpec {
            tag: "Web",
            label: "Web",
            kind: FieldKind::Text,
            width: 480,
            tip: "Space-separated URLs for the series.",
        },
        FieldSpec {
            tag: "PageCount",
            label: "Page Count",
            kind: FieldKind::Numeric { max_digits: 5 },
            width: 70,
            tip: "Total number of pages in the book.",
        },
        FieldSpec {
            tag: "LanguageISO",
            label: "Language ISO",
            kind: FieldKind::Text,
            width: 70,
            tip: "ISO code: \"en\", \"ja\", \"ko\" ...",
        },
        FieldSpec {
            tag: "Format",
            label: "Format",
            kind: FieldKind::Text,
            width: 150,
            tip: "Format of the book, e.g. \"Digital\", \"Annual\", \"TPB\".",
        },
        FieldSpec {
            tag: "BlackAndWhite",
            label: "Black & White",
            kind: FieldKind::Enum(Choice::YesNo),
            width: 120,
            tip: "Whether the book is printed in black and white.",
        },
        FieldSpec {
            tag: "Manga",
            label: "Manga",
            kind: FieldKind::Enum(Choice::Manga),
            width: 170,
            tip: "Whether the book is a manga, and if it reads right-to-left.",
        },
        FieldSpec {
            tag: "Characters",
            label: "Characters",
            kind: FieldKind::Text,
            width: 480,
            tip: "Characters appearing in the book, comma-separated.",
        },
        FieldSpec {
            tag: "Teams",
            label: "Teams",
            kind: FieldKind::Text,
            width: 480,
            tip: "Teams appearing in the book, comma-separated.",
        },
        FieldSpec {
            tag: "Locations",
            label: "Locations",
            kind: FieldKind::Text,
            width: 480,
            tip: "Locations appearing in the book, comma-separated.",
        },
        FieldSpec {
            tag: "ScanInformation",
            label: "Scan Information",
            kind: FieldKind::Text,
            width: 300,
            tip: "Free text field, usually used to store information about who scanned the book.",
        },
        FieldSpec {
            tag: "StoryArc",
            label: "Story Arc",
            kind: FieldKind::Text,
            width: 230,
            tip: "The story arc this book belongs to. Multiple values are comma-separated.",
        },
        FieldSpec {
            tag: "StoryArcNumber",
            label: "Story Arc Number",
            kind: FieldKind::Text,
            width: 120,
            tip: "Position within the story arc's reading order. Multiple values are comma-separated.",
        },
        FieldSpec {
            tag: "AgeRating",
            label: "Age Rating",
            kind: FieldKind::Enum(Choice::AgeRating),
            width: 170,
            tip: "Content advisory rating, e.g. \"Teen\" or \"Mature 17+\".",
        },
        FieldSpec {
            tag: "CommunityRating",
            label: "Community Rating",
            kind: FieldKind::Decimal { min: 0, max: 5 },
            width: 70,
            tip: "Community/quality score, 0-5 (e.g. a MyAnimeList score of 7.6/10 -> 3.8).",
        },
        FieldSpec {
            tag: "MainCharacterOrTeam",
            label: "Main Character/Team",
            kind: FieldKind::Text,
            width: 230,
            tip: "The principal character or team the book focuses on.",
        },
        FieldSpec {
            tag: "Review",
            label: "Review",
            kind: FieldKind::Text,
            width: 300,
            tip: "A review or critique of the book.",
        },
        FieldSpec {
            tag: "GTIN",
            label: "GTIN",
            kind: FieldKind::Text,
            width: 150,
            tip: "Global Trade Item Number -- barcode/ISBN-style identifier.",
        },
    ]
}

/// The fields of constant metadata.
pub fn comicinfo_fields() -> (r: Vec<FieldSpec>)
    ensures
        r@ == field_table(),
{
    let r: Vec<FieldSpec> = vec![
        FieldSpec {
            tag: "Series",
            label: "Series",
            kind: FieldKind::Text,
            width: 230,
            tip: "Title of the series the book is part of.",
        },
        FieldSpec {
            tag: "Count",
            label: "Count",
            kind: FieldKind::Numeric { max_digits: 4 },
            width: 70,
            tip: "Total number of chapters/volumes/issues in the series.",
        },
        FieldSpec {
            tag: "AlternateSeries",
            label: "Alt. Series",
            kind: FieldKind::Text,
            width: 230,
            tip: "Some books are part of cross-over story arcs and can specify an alternate series.",
        },
        FieldSpec {
            tag: "AlternateNumber",
            label: "Alt. Number",
            kind: FieldKind::Text,
            width: 100,
            tip: "Number of the book within its alternate series.",
        },
        FieldSpec {
            tag: "AlternateCount",
            label: "Alt. Count",
            kind: FieldKind::Numeric { max_digits: 4 },
            width: 70,
            tip: "Total number of books in the alternate series.",
        },
        FieldSpec {
            tag: "SeriesGroup",
            label: "Series Group",
            kind: FieldKind::Text,
            width: 230,
            tip: "A larger collection or imprint grouping this series belongs to.",
        },
        FieldSpec {
            tag: "Notes",
            label: "Notes",
            kind: FieldKind::Text,
            width: 300,
            tip: "Free text field, usually used to store information about the application that created the file.",
        },
        FieldSpec {
            tag: "Year",
            label: "Year",
            kind: FieldKind::Numeric { max_digits: 4 },
            width: 70,
            tip: "Default publication year.",
        },
        FieldSpec {
            tag: "Month",
            label: "Month",
            kind: FieldKind::Numeric { max_digits: 2 },
            width: 50,
            tip: "Default publication month (1-12).",
        },
        FieldSpec {
            tag: "Day",
            label: "Day",
            kind: FieldKind::Numeric { max_digits: 2 },
            width: 50,
            tip: "Default publication day.",
        },
        FieldSpec {
            tag: "Writer",
            label: "Writer",
            kind: FieldKind::Text,
            width: 230,
            tip: "Person or organization responsible for creating the scenario.",
        },
        FieldSpec {
            tag: "Penciller",
            label: "Penciller",
            kind: FieldKind::Text,
            width: 230,
            tip: "Person or organization responsible for drawing the art.",
        },
        FieldSpec {
            tag: "Inker",
            label: "Inker",
            kind: FieldKind::Text,
            width: 230,
            tip: "Person or organization responsible for inking the pencil art.",
        },
        FieldSpec {
            tag: "Colorist",
            label: "Colorist",
            kind: FieldKind::Text,
            width: 230,
            tip: "Person or organization responsible for applying color to drawings.",
        },
        FieldSpec {
            tag: "Letterer",
            label: "Letterer",
            kind: FieldKind::Text,
            width: 230,
            tip: "Person or organization responsible for drawing text and speech bubbles.",
        },
        FieldSpec {
            tag: "CoverArtist",
            label: "Cover Artist",
            kind: FieldKind::Text,
            width: 230,
            tip: "Person or organization responsible for drawing the cover art.",
        },
        FieldSpec {
            tag: "Editor",
            label: "Editor",
            kind: FieldKind::Text,
            width: 230,
            tip: "Person or organization revising or elucidating the content.",
        },
        FieldSpec {
            tag: "Translator",
            label: "Translator",
            kind: FieldKind::Text,
            width: 230,
            tip: "Person or organization responsible for translating the text.",
        },
        FieldSpec {
            tag: "Publisher",
            label: "Publisher",
            kind: FieldKind::Text,
            width: 230,
            tip: "Publisher names, comma-separated.",
        },
        FieldSpec {
            tag: "Imprint",
            label: "Imprint",
            kind: FieldKind::Text,
            width: 230,
            tip: "Publishing imprint -- a brand or label under the main publisher.",
        },
        FieldSpec {
            tag: "Genre",
            label: "Genre",
            kind: FieldKind::Text,
            width: 230,
            tip: "Genres, comma-separated.",
        },
        FieldSpec {
            tag: "Tags",
            label: "Tags",
            kind: FieldKind::Text,
            width: 230,
            tip: "Free-form tags, comma-separated -- distinct from Genre.",
        },
        FieldSpec {
            tag: "Web",
            label: "Web",
            kind: FieldKind::Text,
            width: 480,
            tip: "Space-separated URLs for the series.",
        },
        FieldSpec {
            tag: "PageCount",
            label: "Page Count",
            kind: FieldKind::Numeric { max_digits: 5 },
            width: 70,
            tip: "Total number of pages in the book.",
        },
        FieldSpec {
            tag: "LanguageISO",
            label: "Language ISO",
            kind: FieldKind::Text,
            width: 70,
            tip: "ISO code: \"en\", \"ja\", \"ko\" ...",
        },
        FieldSpec {
            tag: "Format",
            label: "Format",
            kind: FieldKind::Text,
            width: 150,
            tip: "Format of the book, e.g. \"Digital\", \"Annual\", \"TPB\".",
        },
        FieldSpec {
            tag: "BlackAndWhite",
            label: "Black & White",
            kind: FieldKind::Enum(Choice::YesNo),
            width: 120,
            tip: "Whether the book is printed in black and white.",
        },
        FieldSpec {
            tag: "Manga",
            label: "Manga",
            kind: FieldKind::Enum(Choice::Manga),
            width: 170,
            tip: "Whether the book is a manga, and if it reads right-to-left.",
        },
        FieldSpec {
            tag: "Characters",
            label: "Characters",
            kind: FieldKind::Text,
            width: 480,
            tip: "Characters appearing in the book, comma-separated.",
        },
        FieldSpec {
            tag: "Teams",
            label: "Teams",
            kind: FieldKind::Text,
            width: 480,
            tip: "Teams appearing in the book, comma-separated.",
        },
        FieldSpec {
            tag: "Locations",
            label: "Locations",
            kind: FieldKind::Text,
            width: 480,
            tip: "Locations appearing in the book, comma-separated.",
        },
        FieldSpec {
            tag: "ScanInformation",
            label: "Scan Information",
            kind: FieldKind::Text,
            width: 300,
            tip: "Free text field, usually used to store information about who scanned the book.",
        },
        FieldSpec {
            tag: "StoryArc",
            label: "Story Arc",
            kind: FieldKind::Text,
            width: 230,
            tip: "The story arc this book belongs to. Multiple values are comma-separated.",
        },
        FieldSpec {
            tag: "StoryArcNumber",
            label: "Story Arc Number",
            kind: FieldKind::Text,
            width: 120,
            tip: "Position within the story arc's reading order. Multiple values are comma-separated.",
        },
        FieldSpec {
            tag: "AgeRating",
            label: "Age Rating",
            kind: FieldKind::Enum(Choice::AgeRating),
            width: 170,
            tip: "Content advisory rating, e.g. \"Teen\" or \"Mature 17+\".",
        },
        FieldSpec {
            tag: "CommunityRating",
            label: "Community Rating",
            kind: FieldKind::Decimal { min: 0, max: 5 },
            width: 70,
            tip: "Community/quality score, 0-5 (e.g. a MyAnimeList score of 7.6/10 -> 3.8).",
        },
        FieldSpec {
            tag: "MainCharacterOrTeam",
            label: "Main Character/Team",
            kind: FieldKind::Text,
            width: 230,
            tip: "The principal character or team the book focuses on.",
        },
        FieldSpec {
            tag: "Review",
            label: "Review",
            kind: FieldKind::Text,
            width: 300,
            tip: "A review or critique of the book.",
        },
        FieldSpec {
            tag: "GTIN",
            label: "GTIN",
            kind: FieldKind::Text,
            width: 150,
            tip: "Global Trade Item Number -- barcode/ISBN-style identifier.",
        },
    ];
    assert(r@ =~= field_table());
    r
}

/// Where `tag` first stands in `order`; the length of `order` where it does not stand there.
pub open spec fn place_of(order: Seq<Seq<char>>, tag: Seq<char>) -> nat
    decreases order.len(),
{
    if order.len() == 0 {
        0
    } else if order[0] == tag {
        0
    } else {
        1 + place_of(order.skip(1), tag)
    }
}

/// The place of a tag in the schema; `usize::MAX` for any other tag.
pub open spec fn canonical_place(tag: Seq<char>) -> usize {
    let p = place_of(canonical_order(), tag);
    if p < canonical_order().len() {
        p as usize
    } else {
        usize::MAX
    }
}

/// The rank of a tag in a custom order: its place there, and for a tag that is not listed, its place
/// in the schema, behind everything that is.
pub open spec fn rank_of(tag: Seq<char>, order: Seq<Seq<char>>) -> usize {
    let p = place_of(order, tag);
    if p < order.len() {
        p as usize
    } else {
        let offset = if order.len() > canonical_order().len() {
            order.len()
        } else {
            canonical_order().len()
        };
        if offset + canonical_place(tag) > usize::MAX {
            usize::MAX
        } else {
            (offset + canonical_place(tag)) as usize
        }
    }
}

pub proof fn lemma_place_of(order: Seq<Seq<char>>, tag: Seq<char>)
    ensures
        place_of(order, tag) <= order.len(),
        place_of(order, tag) < order.len() ==> order[place_of(order, tag) as int] == tag,
        forall|i: int| 0 <= i < place_of(order, tag) ==> #[trigger] order[i] != tag,
    decreases order.len(),
{
    if order.len() > 0 && order[0] != tag {
        let rest = order.skip(1);
        lemma_place_of(rest, tag);
        assert forall|i: int| 0 <= i < place_of(order, tag) implies #[trigger] order[i] != tag by {
            if i > 0 {
                assert(rest[i - 1] == order[i]);
            }
        }
    }
}

/// The place of a tag is any one where it stands and before which it does not.
pub proof fn lemma_place_is(order: Seq<Seq<char>>, tag: Seq<char>, k: nat)
    requires
        k <= order.len(),
        k < order.len() ==> order[k as int] == tag,
        forall|i: int| 0 <= i < k ==> #[trigger] order[i] != tag,
    ensures
        place_of(order, tag) == k,
{
    lemma_place_of(order, tag);
    let p = place_of(order, tag);
    if p < k {
        assert(order[p as int] != tag);
    }
}

/// The place of a tag in the schema; `usize::MAX` for any other tag.
pub fn canonical_index(tag: &str) -> (r: usize)
    ensures
        r == canonical_place(tag@),
{
    let tags = canonical_tags();
    let ghost order = canonical_order();
    let mut i: usize = 0;
    while i < tags.len()
        invariant
            tags.deep_view() == order,
            order == canonical_order(),
            i <= tags@.len(),
            forall|k: int| 0 <= k < i ==> #[trigger] order[k] != tag@,
        decreases tags@.len() - i,
    {
        assert(order[i as int] == tags@[i as int]@);
        if same(tags[i], tag) {
            proof {
                lemma_place_is(order, tag@, i as nat);
            }
            return i;
        }
        i = i + 1;
    }
    proof {
        lemma_place_is(order, tag@, i as nat);
    }
    usize::MAX
}

/// Some texts, each in a string of its own.
pub fn texts_of(v: &Vec<&'static str>) -> (r: Vec<String>)
    ensures
        r.deep_view() == v.deep_view(),
{
    let mut out: Vec<String> = Vec::new();
    let n: usize = v.len();
    for i in 0..n
        invariant
            n == v@.len(),
            out@.len() == i,
            forall|k: int| 0 <= k < i ==> (#[trigger] out@[k])@ == v@[k]@,
    {
        out.push(String::from_str(v[i]));
    }
    assert(out.deep_view() =~= v.deep_view());
    out
}

/// The tags in the sequence of the schema, as a custom order starts out.
pub fn default_tag_order() -> (r: Vec<String>)
    ensures
        r.deep_view() == canonical_order(),
{
    let tags = canonical_tags();
    texts_of(&tags)
}

/// Where `tag` first stands in `order`; the length of `order` where it does not stand there.
pub fn position_in(order: &Vec<String>, tag: &str) -> (r: usize)
    ensures
        r == place_of(order.deep_view(), tag@),
{
    let ghost names = order.deep_view();
    let mut i: usize = 0;
    while i < order.len()
        invariant
            names == order.deep_view(),
            i <= order@.len(),
            forall|k: int| 0 <= k < i ==> #[trigger] names[k] != tag@,
        decreases order@.len() - i,
    {
        assert(names[i as int] == order@[i as int]@);
        if same(order[i].as_str(), tag) {
            proof {
                lemma_place_is(names, tag@, i as nat);
            }
            return i;
        }
        i = i + 1;
    }
    proof {
        lemma_place_is(names, tag@, i as nat);
    }
    i
}

/// The rank of a tag in a custom order.
pub fn tag_rank(tag: &str, order: &Vec<String>) -> (r: usize)
    ensures
        r == rank_of(tag@, order.deep_view()),
{
    let p: usize = position_in(order, tag);
    let n: usize = order.len();
    proof {
        lemma_place_of(order.deep_view(), tag@);
    }
    if p < n {
        p
    } else {
        let m: usize = 43;
        let offset: usize = if n > m {
            n
        } else {
            m
        };
        let c: usize = canonical_index(tag);
        if c > usize::MAX - offset {
            usize::MAX
        } else {
            offset + c
        }
    }
}

/// The field with a given tag.
pub open spec fn field_of(tag: Seq<char>) -> Option<FieldSpec> {
    let p = place_of(field_table().map_values(|f: FieldSpec| f.tag@), tag);
    if p < field_table().len() {
        Some(field_table()[p as int])
    } else {
        None
    }
}

/// The field with a given tag.
pub fn field_spec(tag: &str) -> (r: Option<FieldSpec>)
    ensures
        r == field_of(tag@),
{
    let fields = comicinfo_fields();
    let ghost names = field_table().map_values(|f: FieldSpec| f.tag@);
    let mut i: usize = 0;
    while i < fields.len()
        invariant
            fields@ == field_table(),
            names == field_table().map_values(|f: FieldSpec| f.tag@),
            i <= fields@.len(),
            forall|k: int| 0 <= k < i ==> #[trigger] names[k] != tag@,
        decreases fields@.len() - i,
    {
        assert(names[i as int] == fields@[i as int].tag@);
        if same(fields[i].tag, tag) {
            proof {
                lemma_place_is(names, tag@, i as nat);
            }
            return Some(fields[i]);
        }
        i = i + 1;
    }
    proof {
        lemma_place_is(names, tag@, i as nat);
    }
    None
}

/// A tag that stands at a place of `order` has no later place.
pub proof fn lemma_place_at_most(order: Seq<Seq<char>>, tag: Seq<char>, k: int)
    requires
        0 <= k < order.len(),
        order[k] == tag,
    ensures
        place_of(order, tag) <= k,
{
    lemma_place_of(order, tag);
}

/// Whether a tag is worked out for each file.
pub open spec fn is_per_file(tag: Seq<char>) -> bool {
    tag == "Title"@ || tag == "Number"@ || tag == "Volume"@ || tag == "Summary"@
}

/// The fields of constant metadata are the tags of the schema but for those worked out for each file.
pub proof fn lemma_fields_cover_schema()
    ensures
        forall|i: int|
            0 <= i < canonical_order().len() && !is_per_file(#[trigger] canonical_order()[i])
                ==> field_of(canonical_order()[i]) is Some,
        forall|i: int|
            0 <= i < field_table().len() ==> canonical_place(#[trigger] field_table()[i].tag@)
                < canonical_order().len(),
{
    let names = field_table().map_values(|f: FieldSpec| f.tag@);
    let order = canonical_order();
    assert(names[0] == order[1]);
    assert(names[1] == order[3]);
    assert(names[2] == order[5]);
    assert(names[3] == order[6]);
    assert(names[4] == order[7]);
    assert(names[6] == order[9]);
    assert(names[7] == order[10]);
    assert(names[8] == order[11]);
    assert(names[9] == order[12]);
    assert(names[10] == order[13]);
    assert(names[11] == order[14]);
    assert(names[12] == order[15]);
    assert(names[13] == order[16]);
    assert(names[14] == order[17]);
    assert(names[15] == order[18]);
    assert(names[16] == order[19]);
    assert(names[17] == order[20]);
    assert(names[18] == order[21]);
    assert(names[19] == order[22]);
    assert(names[20] == order[23]);
    assert(names[21] == order[24]);
    assert(names[22] == order[25]);
    assert(names[23] == order[26]);
    assert(names[24] == order[27]);
    assert(names[25] == order[28]);
    assert(names[26] == order[29]);
    assert(names[27] == order[30]);
    assert(names[28] == order[31]);
    assert(names[29] == order[32]);
    assert(names[30] == order[33]);
    assert(names[31] == order[34]);
    assert(names[32] == order[35]);
    assert(names[33] == order[36]);
    assert(names[5] == order[37]);
    assert(names[34] == order[38]);
    assert(names[35] == order[39]);
    assert(names[36] == order[40]);
    assert(names[37] == order[41]);
    assert(names[38] == order[42]);
    assert forall|i: int| 0 <= i < order.len() && !is_per_file(#[trigger] order[i]) implies field_of(
        order[i],
    ) is Some by {
        let k = choose|k: int| 0 <= k < names.len() && names[k] == order[i];
        assert(0 <= k < names.len() && names[k] == order[i]);
        lemma_place_at_most(names, order[i], k);
    }
    assert forall|i: int| 0 <= i < field_table().len() implies canonical_place(
        #[trigger] field_table()[i].tag@,
    ) < order.len() by {
        let tag = field_table()[i].tag@;
        assert(names[i] == tag);
        let k = choose|k: int| 0 <= k < order.len() && order[k] == names[i];
        assert(0 <= k < order.len() && order[k] == names[i]);
        lemma_place_at_most(order, tag, k);
    }
}

/// Whether a tag is listed in a custom order.
pub open spec fn is_listed(tag: Seq<char>, order: Seq<Seq<char>>) -> bool {
    place_of(order, tag) < order.len()
}

/// Listed tags rank by their place in the list, and before every tag that is not listed.
pub proof fn lemma_listed_tags_come_first(a: Seq<char>, b: Seq<char>, order: Seq<Seq<char>>)
    requires
        order.len() <= usize::MAX,
        is_listed(a, order),
    ensures
        is_listed(b, order) ==> (rank_of(a, order) < rank_of(b, order) <==> place_of(order, a)
            < place_of(order, b)),
        !is_listed(b, order) ==> rank_of(a, order) < rank_of(b, order),
{
}

/// Tags of the schema that are not listed rank in the sequence of the schema.
pub proof fn lemma_unlisted_tags_keep_schema_order(
    a: Seq<char>,
    b: Seq<char>,
    order: Seq<Seq<char>>,
)
    requires
        order.len() + canonical_order().len() <= usize::MAX,
        !is_listed(a, order),
        !is_listed(b, order),
        canonical_place(a) < canonical_order().len(),
        canonical_place(b) < canonical_order().len(),
    ensures
        rank_of(a, order) < rank_of(b, order) <==> canonical_place(a) < canonical_place(b),
{
}

/// Whether a text starts with a capital ASCII letter.
pub open spec fn starts_with_capital(s: Seq<char>) -> bool {
    s.len() > 0 && 'A' <= s[0] <= 'Z'
}

/// The place of a tag in the schema, by its length and one or two of its letters.
spec fn place_by_letters(s: Seq<char>) -> int {
    if s.len() == 3 {
        if s[0] == 'D' {
            12
        } else {
            25
        }
    } else if s.len() == 4 {
        if s[0] == 'Y' {
            10
        } else if s[0] == 'T' {
            24
        } else {
            42
        }
    } else if s.len() == 5 {
        if s[3] == 'l' {
            0
        } else if s[3] == 'n' {
            3
        } else if s[3] == 'e' && s[0] == 'N' {
            9
        } else if s[3] == 't' {
            11
        } else if s[3] == 'e' {
            15
        } else if s[3] == 'r' {
            23
        } else if s[3] == 'g' {
            30
        } else {
            32
        }
    } else if s.len() == 6 {
        if s[0] == 'S' {
            1
        } else if s[0] == 'N' {
            2
        } else if s[0] == 'V' {
            4
        } else if s[0] == 'W' {
            13
        } else if s[0] == 'E' {
            19
        } else if s[0] == 'F' {
            28
        } else {
            41
        }
    } else if s.len() == 7 {
        if s[0] == 'S' {
            8
        } else {
            22
        }
    } else if s.len() == 8 {
        if s[0] == 'C' {
            16
        } else if s[0] == 'L' {
            17
        } else {
            35
        }
    } else if s.len() == 9 {
        if s[1] == 'e' {
            14
        } else if s[1] == 'u' {
            21
        } else if s[1] == 'a' {
            26
        } else if s[1] == 'o' {
            33
        } else {
            38
        }
    } else if s.len() == 10 {
        if s[0] == 'T' {
            20
        } else {
            31
        }
    } else if s.len() == 11 {
        if s[0] == 'C' {
            18
        } else if s[0] == 'L' {
            27
        } else {
            37
        }
    } else if s.len() == 13 {
        29
    } else if s.len() == 14 {
        if s[0] == 'A' {
            7
        } else {
            36
        }
    } else if s.len() == 15 {
        if s[9] == 'S' {
            5
        } else if s[9] == 'N' {
            6
        } else if s[9] == 'm' {
            34
        } else {
            39
        }
    } else {
        40
    }
}

proof fn lemma_letters_first()
    ensures
        forall|i: int|
            0 <= i < 15 ==> place_by_letters(#[trigger] canonical_order()[i]) == i
                && starts_with_capital(canonical_order()[i]),
{
    let order = canonical_order();
    reveal_strlit("Title");
    assert(place_by_letters(order[0]) == 0 && starts_with_capital(order[0]));
    reveal_strlit("Series");
    assert(place_by_letters(order[1]) == 1 && starts_with_capital(order[1]));
    reveal_strlit("Number");
    assert(place_by_letters(order[2]) == 2 && starts_with_capital(order[2]));
    reveal_strlit("Count");
    assert(place_by_letters(order[3]) == 3 && starts_with_capital(order[3]));
    reveal_strlit("Volume");
    assert(place_by_letters(order[4]) == 4 && starts_with_capital(order[4]));
    reveal_strlit("AlternateSeries");
    assert(place_by_letters(order[5]) == 5 && starts_with_capital(order[5]));
    reveal_strlit("AlternateNumber");
    assert(place_by_letters(order[6]) == 6 && starts_with_capital(order[6]));
    reveal_strlit("AlternateCount");
    assert(place_by_letters(order[7]) == 7 && starts_with_capital(order[7]));
    reveal_strlit("Summary");
    assert(place_by_letters(order[8]) == 8 && starts_with_capital(order[8]));
    reveal_strlit("Notes");
    assert(place_by_letters(order[9]) == 9 && starts_with_capital(order[9]));
    reveal_strlit("Year");
    assert(place_by_letters(order[10]) == 10 && starts_with_capital(order[10]));
    reveal_strlit("Month");
    assert(place_by_letters(order[11]) == 11 && starts_with_capital(order[11]));
    reveal_strlit("Day");
    assert(place_by_letters(order[12]) == 12 && starts_with_capital(order[12]));
    reveal_strlit("Writer");
    assert(place_by_letters(order[13]) == 13 && starts_with_capital(order[13]));
    reveal_strlit("Penciller");
    assert(place_by_letters(order[14]) == 14 && starts_with_capital(order[14]));
}

proof fn lemma_letters_second()
    ensures
        forall|i: int|
            15 <= i < 30 ==> place_by_letters(#[trigger] canonical_order()[i]) == i
                && starts_with_capital(canonical_order()[i]),
{
    let order = canonical_order();
    reveal_strlit("Inker");
    assert(place_by_letters(order[15]) == 15 && starts_with_capital(order[15]));
    reveal_strlit("Colorist");
    assert(place_by_letters(order[16]) == 16 && starts_with_capital(order[16]));
    reveal_strlit("Letterer");
    assert(place_by_letters(order[17]) == 17 && starts_with_capital(order[17]));
    reveal_strlit("CoverArtist");
    assert(place_by_letters(order[18]) == 18 && starts_with_capital(order[18]));
    reveal_strlit("Editor");
    assert(place_by_letters(order[19]) == 19 && starts_with_capital(order[19]));
    reveal_strlit("Translator");
    assert(place_by_letters(order[20]) == 20 && starts_with_capital(order[20]));
    reveal_strlit("Publisher");
    assert(place_by_letters(order[21]) == 21 && starts_with_capital(order[21]));
    reveal_strlit("Imprint");
    assert(place_by_letters(order[22]) == 22 && starts_with_capital(order[22]));
    reveal_strlit("Genre");
    assert(place_by_letters(order[23]) == 23 && starts_with_capital(order[23]));
    reveal_strlit("Tags");
    assert(place_by_letters(order[24]) == 24 && starts_with_capital(order[24]));
    reveal_strlit("Web");
    assert(place_by_letters(order[25]) == 25 && starts_with_capital(order[25]));
    reveal_strlit("PageCount");
    assert(place_by_letters(order[26]) == 26 && starts_with_capital(order[26]));
    reveal_strlit("LanguageISO");
    assert(place_by_letters(order[27]) == 27 && starts_with_capital(order[27]));
    reveal_strlit("Format");
    assert(place_by_letters(order[28]) == 28 && starts_with_capital(order[28]));
    reveal_strlit("BlackAndWhite");
    assert(place_by_letters(order[29]) == 29 && starts_with_capital(order[29]));
}

proof fn lemma_letters_third()
    ensures
        forall|i: int|
            30 <= i < 43 ==> place_by_letters(#[trigger] canonical_order()[i]) == i
                && starts_with_capital(canonical_order()[i]),
{
    let order = canonical_order();
    reveal_strlit("Manga");
    assert(place_by_letters(order[30]) == 30 && starts_with_capital(order[30]));
    reveal_strlit("Characters");
    assert(place_by_letters(order[31]) == 31 && starts_with_capital(order[31]));
    reveal_strlit("Teams");
    assert(place_by_letters(order[32]) == 32 && starts_with_capital(order[32]));
    reveal_strlit("Locations");
    assert(place_by_letters(order[33]) == 33 && starts_with_capital(order[33]));
    reveal_strlit("ScanInformation");
    assert(place_by_letters(order[34]) == 34 && starts_with_capital(order[34]));
    reveal_strlit("StoryArc");
    assert(place_by_letters(order[35]) == 35 && starts_with_capital(order[35]));
    reveal_strlit("StoryArcNumber");
    assert(place_by_letters(order[36]) == 36 && starts_with_capital(order[36]));
    reveal_strlit("SeriesGroup");
    assert(place_by_letters(order[37]) == 37 && starts_with_capital(order[37]));
    reveal_strlit("AgeRating");
    assert(place_by_letters(order[38]) == 38 && starts_with_capital(order[38]));
    reveal_strlit("CommunityRating");
    assert(place_by_letters(order[39]) == 39 && starts_with_capital(order[39]));
    reveal_strlit("MainCharacterOrTeam");
    assert(place_by_letters(order[40]) == 40 && starts_with_capital(order[40]));
    reveal_strlit("Review");
    assert(place_by_letters(order[41]) == 41 && starts_with_capital(order[41]));
    reveal_strlit("GTIN");
    assert(place_by_letters(order[42]) == 42 && starts_with_capital(order[42]));
}

/// The tags of the schema are distinct, and each one has its own place there: the order that a custom
/// order starts out with and the places in the schema are inverse to each other. Any other tag has no
/// place.
pub proof fn lemma_places_are_inverse()
    ensures
        canonical_order().len() == 43,
        forall|i: int|
            0 <= i < 43 ==> canonical_place(#[trigger] canonical_order()[i]) == i && rank_of(
                canonical_order()[i],
                canonical_order(),
            ) == i,
        forall|i: int, j: int|
            0 <= i < j < 43 ==> #[trigger] canonical_order()[i] != #[trigger] canonical_order()[j],
        forall|tag: Seq<char>|
            !canonical_order().contains(tag) ==> #[trigger] canonical_place(tag) == usize::MAX,
{
    let order = canonical_order();
    lemma_letters_first();
    lemma_letters_second();
    lemma_letters_third();
    assert forall|i: int| 0 <= i < 43 implies place_by_letters(#[trigger] order[i]) == i by {}
    assert forall|i: int| 0 <= i < 43 implies canonical_place(#[trigger] order[i]) == i && rank_of(
        order[i],
        order,
    ) == i by {
        assert forall|k: int| 0 <= k < i implies #[trigger] order[k] != order[i] by {
            assert(place_by_letters(order[k]) == k);
        }
        lemma_place_is(order, order[i], i as nat);
    }
    assert forall|tag: Seq<char>| !order.contains(tag) implies #[trigger] canonical_place(tag)
        == usize::MAX by {
        lemma_place_of(order, tag);
    }
}

/// The tags of fields start with a capital letter.
pub proof fn lemma_fields_are_capitalized(tag: Seq<char>)
    requires
        field_of(tag) is Some,
    ensures
        starts_with_capital(tag),
{
    let order = canonical_order();
    let names = field_table().map_values(|f: FieldSpec| f.tag@);
    let p = place_of(names, tag);
    lemma_place_of(names, tag);
    lemma_fields_cover_schema();
    assert(names[p as int] == field_table()[p as int].tag@);
    assert(canonical_place(field_table()[p as int].tag@) < order.len());
    lemma_place_of(order, tag);
    lemma_letters_first();
    lemma_letters_second();
    lemma_letters_third();
    assert(starts_with_capital(order[canonical_place(tag) as int]));
}

/// No two tags have the same rank, as far as they are listed or belong to the schema.
pub proof fn lemma_ranks_are_distinct(a: Seq<char>, b: Seq<char>, order: Seq<Seq<char>>)
    requires
        order.len() + canonical_order().len() <= usize::MAX,
        is_listed(a, order) || canonical_place(a) < canonical_order().len(),
        is_listed(b, order) || canonical_place(b) < canonical_order().len(),
        a != b,
    ensures
        rank_of(a, order) != rank_of(b, order),
{
    lemma_place_of(order, a);
    lemma_place_of(order, b);
    lemma_place_of(canonical_order(), a);
    lemma_place_of(canonical_order(), b);
}

/// In the default order, the tags of the schema rank in the sequence of the schema.
pub proof fn lemma_default_order_is_canonical(tag: Seq<char>)
    requires
        canonical_place(tag) < canonical_order().len(),
    ensures
        rank_of(tag, canonical_order()) == canonical_place(tag),
{
}

} // verus!
