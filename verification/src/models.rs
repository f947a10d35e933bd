//! The records the bookshelf hands out, each with the mathematical row it
//! stands for.

use vstd::prelude::*;
use crate::tables::{lemma_filter_none, lemma_filter_push};

verus! {

/// A folder registered for scanning.
#[derive(Debug)]
pub struct Directory {
    pub id: i64,
    pub path: String,
    pub label: String,
    pub added_at: String,
}

/// The row a [`Directory`] stands for.
pub struct DirectoryRow {
    pub id: int,
    pub path: Seq<char>,
    pub label: Seq<char>,
    pub added_at: Seq<char>,
}

impl View for Directory {
    type V = DirectoryRow;

    open spec fn view(&self) -> DirectoryRow {
        DirectoryRow {
            id: self.id as int,
            path: self.path@,
            label: self.label@,
            added_at: self.added_at@,
        }
    }
}

impl Clone for Directory {
    fn clone(&self) -> (r: Self)
        ensures
            r@ == self@,
    {
        Directory {
            id: self.id,
            path: self.path.clone(),
            label: self.label.clone(),
            added_at: self.added_at.clone(),
        }
    }
}

/// A PDF found in a registered folder. Textbooks are derived on every
/// listing and never stored.
#[derive(Debug)]
pub struct Textbook {
    pub slug: String,
    pub title: String,
    pub file: String,
    pub dir_id: i64,
    pub dir_path: String,
    pub full_path: String,
}

/// The value a [`Textbook`] stands for.
pub struct TextbookRow {
    pub slug: Seq<char>,
    pub title: Seq<char>,
    pub file: Seq<char>,
    pub dir_id: int,
    pub dir_path: Seq<char>,
    pub full_path: Seq<char>,
}

impl View for Textbook {
    type V = TextbookRow;

    open spec fn view(&self) -> TextbookRow {
        TextbookRow {
            slug: self.slug@,
            title: self.title@,
            file: self.file@,
            dir_id: self.dir_id as int,
            dir_path: self.dir_path@,
            full_path: self.full_path@,
        }
    }
}

impl Clone for Textbook {
    fn clone(&self) -> (r: Self)
        ensures
            r@ == self@,
    {
        Textbook {
            slug: self.slug.clone(),
            title: self.title.clone(),
            file: self.file.clone(),
            dir_id: self.dir_id,
            dir_path: self.dir_path.clone(),
            full_path: self.full_path.clone(),
        }
    }
}

/// The note attached to one page of one textbook.
#[derive(Debug)]
pub struct NoteRecord {
    pub id: i64,
    pub slug: String,
    pub page: i64,
    pub content: String,
    pub format: String,
    pub updated_at: String,
}

/// The row a [`NoteRecord`] stands for.
pub struct NoteRow {
    pub id: int,
    pub slug: Seq<char>,
    pub page: int,
    pub content: Seq<char>,
    pub format: Seq<char>,
    pub updated_at: Seq<char>,
}

impl View for NoteRecord {
    type V = NoteRow;

    open spec fn view(&self) -> NoteRow {
        NoteRow {
            id: self.id as int,
            slug: self.slug@,
            page: self.page as int,
            content: self.content@,
            format: self.format@,
            updated_at: self.updated_at@,
        }
    }
}

impl Clone for NoteRecord {
    fn clone(&self) -> (r: Self)
        ensures
            r@ == self@,
    {
        NoteRecord {
            id: self.id,
            slug: self.slug.clone(),
            page: self.page,
            content: self.content.clone(),
            format: self.format.clone(),
            updated_at: self.updated_at.clone(),
        }
    }
}

/// An image attached to a note, found again by book, page and file name.
#[derive(Debug)]
pub struct NoteImage {
    pub id: i64,
    pub note_slug: String,
    pub note_page: i64,
    pub filename: String,
    pub data: Vec<u8>,
    pub created_at: String,
}

/// The row a [`NoteImage`] stands for.
pub struct ImageRow {
    pub id: int,
    pub note_slug: Seq<char>,
    pub note_page: int,
    pub filename: Seq<char>,
    pub data: Seq<u8>,
    pub created_at: Seq<char>,
}

impl View for NoteImage {
    type V = ImageRow;

    open spec fn view(&self) -> ImageRow {
        ImageRow {
            id: self.id as int,
            note_slug: self.note_slug@,
            note_page: self.note_page as int,
            filename: self.filename@,
            data: self.data@,
            created_at: self.created_at@,
        }
    }
}

impl Clone for NoteImage {
    fn clone(&self) -> (r: Self)
        ensures
            r@ == self@,
    {
        NoteImage {
            id: self.id,
            note_slug: self.note_slug.clone(),
            note_page: self.note_page,
            filename: self.filename.clone(),
            data: self.data.clone(),
            created_at: self.created_at.clone(),
        }
    }
}

/// A named, coloured label.
#[derive(Debug)]
pub struct Tag {
    pub id: i64,
    pub name: String,
    pub color: String,
}

/// The row a [`Tag`] stands for.
pub struct TagRow {
    pub id: int,
    pub name: Seq<char>,
    pub color: Seq<char>,
}

impl View for Tag {
    type V = TagRow;

    open spec fn view(&self) -> TagRow {
        TagRow { id: self.id as int, name: self.name@, color: self.color@ }
    }
}

impl Clone for Tag {
    fn clone(&self) -> (r: Self)
        ensures
            r@ == self@,
    {
        Tag { id: self.id, name: self.name.clone(), color: self.color.clone() }
    }
}

/// One association of a book with a tag.
#[derive(Debug)]
pub struct BookTag {
    pub book_slug: String,
    pub tag_id: i64,
}

/// The row a [`BookTag`] stands for.
pub struct BookTagRow {
    pub book_slug: Seq<char>,
    pub tag_id: int,
}

impl View for BookTag {
    type V = BookTagRow;

    open spec fn view(&self) -> BookTagRow {
        BookTagRow { book_slug: self.book_slug@, tag_id: self.tag_id as int }
    }
}

impl Clone for BookTag {
    fn clone(&self) -> (r: Self)
        ensures
            r@ == self@,
    {
        BookTag { book_slug: self.book_slug.clone(), tag_id: self.tag_id }
    }
}

/// The views of a sequence of records, element by element.
pub open spec fn views<T: View>(records: Seq<T>) -> Seq<T::V> {
    Seq::new(records.len(), |i: int| records[i]@)
}

/// A record that can be copied together with what it stands for.
pub trait Record: View + Sized {
    /// A copy of the record.
    fn duplicate(&self) -> (copy: Self)
        ensures
            copy@ == self@,
    ;
}

impl Record for Directory {
    fn duplicate(&self) -> (copy: Self) {
        self.clone()
    }
}

impl Record for NoteRecord {
    fn duplicate(&self) -> (copy: Self) {
        self.clone()
    }
}

impl Record for NoteImage {
    fn duplicate(&self) -> (copy: Self) {
        self.clone()
    }
}

impl Record for Tag {
    fn duplicate(&self) -> (copy: Self) {
        self.clone()
    }
}

impl Record for BookTag {
    fn duplicate(&self) -> (copy: Self) {
        self.clone()
    }
}

/// Copies of all the records, in order.
pub fn copy_records<T: Record>(records: &Vec<T>) -> (copies: Vec<T>)
    ensures
        views(copies@) == views(records@),
{
    let mut copies: Vec<T> = Vec::new();
    let mut i: usize = 0;
    while i < records.len()
        invariant
            i <= records.len(),
            views(copies@) == views(records@).take(i as int),
        decreases records.len() - i,
    {
        let ghost before = views(copies@);
        copies.push(records[i].duplicate());
        assert(views(copies@) =~= before.push(records@[i as int]@));
        assert(views(records@).take(i + 1) =~= before.push(records@[i as int]@));
        i += 1;
    }
    assert(views(records@).take(i as int) =~= views(records@));
    copies
}

/// All the tags of one book.
#[derive(Debug)]
pub struct BookTagMapping {
    pub book_slug: String,
    pub tags: Vec<Tag>,
}

/// The value a [`BookTagMapping`] stands for.
pub struct BookTags {
    pub book_slug: Seq<char>,
    pub tags: Seq<TagRow>,
}

impl View for BookTagMapping {
    type V = BookTags;

    open spec fn view(&self) -> BookTags {
        BookTags { book_slug: self.book_slug@, tags: views(self.tags@) }
    }
}

/// One association of a book with a tag, joined with the tag's name and
/// colour: book slug, tag id, tag name, tag colour.
pub type TagLink = (Seq<char>, int, Seq<char>, Seq<char>);

/// The links that a vector of joined rows stands for.
pub open spec fn links(rows: Seq<(String, i64, String, String)>) -> Seq<TagLink> {
    Seq::new(rows.len(), |i: int| (rows[i].0@, rows[i].1 as int, rows[i].2@, rows[i].3@))
}

/// The tag that a link carries.
pub open spec fn link_tag(link: TagLink) -> TagRow {
    TagRow { id: link.1, name: link.2, color: link.3 }
}

/// The tags that the links give to one book, in the order of the links.
pub open spec fn tags_of(rows: Seq<TagLink>, slug: Seq<char>) -> Seq<TagRow>
    decreases rows.len(),
{
    if rows.len() == 0 {
        Seq::empty()
    } else if rows.last().0 == slug {
        tags_of(rows.drop_last(), slug).push(link_tag(rows.last()))
    } else {
        tags_of(rows.drop_last(), slug)
    }
}

/// The book slugs that occur in the links, each once, in the order in which
/// they first occur.
pub open spec fn tagged_books(rows: Seq<TagLink>) -> Seq<Seq<char>>
    decreases rows.len(),
{
    if rows.len() == 0 {
        Seq::empty()
    } else {
        let before = tagged_books(rows.drop_last());
        if before.contains(rows.last().0) {
            before
        } else {
            before.push(rows.last().0)
        }
    }
}

/// The links grouped by book: one entry for each book that occurs, in the
/// order of first occurrence, with all its tags in the order of the links.
pub open spec fn grouped(rows: Seq<TagLink>) -> Seq<BookTags> {
    Seq::new(
        tagged_books(rows).len(),
        |i: int| BookTags { book_slug: tagged_books(rows)[i], tags: tags_of(rows, tagged_books(rows)[i]) },
    )
}

/// No book occurs twice among the tagged books, and each of them has a link.
pub proof fn lemma_tagged_books(rows: Seq<TagLink>)
    ensures
        tagged_books(rows).no_duplicates(),
        forall|slug: Seq<char>|
            tagged_books(rows).contains(slug) <==> exists|i: int|
                0 <= i < rows.len() && (#[trigger] rows[i]).0 == slug,
    decreases rows.len(),
{
    if rows.len() > 0 {
        let before = tagged_books(rows.drop_last());
        lemma_tagged_books(rows.drop_last());
        let last = rows.last().0;
        assert forall|slug: Seq<char>| tagged_books(rows).contains(slug) implies exists|i: int|
            0 <= i < rows.len() && (#[trigger] rows[i]).0 == slug by {
            if before.contains(slug) {
                let i = choose|i: int|
                    0 <= i < rows.drop_last().len() && (#[trigger] rows.drop_last()[i]).0 == slug;
                assert(rows[i].0 == slug);
            } else {
                assert(rows[rows.len() - 1].0 == slug);
            }
        }
        assert forall|slug: Seq<char>|
            (exists|i: int| 0 <= i < rows.len() && (#[trigger] rows[i]).0 == slug) implies tagged_books(
            rows,
        ).contains(slug) by {
            let i = choose|i: int| 0 <= i < rows.len() && (#[trigger] rows[i]).0 == slug;
            if i < rows.len() - 1 {
                assert(rows.drop_last()[i].0 == slug);
                assert(before.contains(slug));
                let k = choose|k: int| 0 <= k < before.len() && before[k] == slug;
                assert(tagged_books(rows)[k] == slug);
            } else if before.contains(slug) {
            } else {
                assert(tagged_books(rows)[before.len() as int] == slug);
            }
        }
    }
}

/// A book has a tag in the grouping exactly through the links that name it:
/// every grouped book has at least one tag.
pub proof fn lemma_tags_of_nonempty(rows: Seq<TagLink>, slug: Seq<char>)
    ensures
        tags_of(rows, slug).len() > 0 <==> tagged_books(rows).contains(slug),
    decreases rows.len(),
{
    lemma_tagged_books(rows);
    if rows.len() > 0 {
        lemma_tags_of_nonempty(rows.drop_last(), slug);
        lemma_tagged_books(rows.drop_last());
        if rows.last().0 == slug {
            assert(rows[rows.len() - 1].0 == slug);
        } else if tagged_books(rows).contains(slug) {
            let i = choose|i: int| 0 <= i < rows.len() && (#[trigger] rows[i]).0 == slug;
            assert(rows.drop_last()[i].0 == slug);
        } else if tagged_books(rows.drop_last()).contains(slug) {
            let i = choose|i: int|
                0 <= i < rows.drop_last().len() && (#[trigger] rows.drop_last()[i]).0 == slug;
            assert(rows[i].0 == slug);
        }
    }
}

/// Selects the links of the given book with the given tag.
pub open spec fn link_is(slug: Seq<char>, tag_id: int) -> spec_fn(TagLink) -> bool {
    |link: TagLink| link.0 == slug && link.1 == tag_id
}

/// Selects the tag with the given id.
pub open spec fn tag_row_is(id: int) -> spec_fn(TagRow) -> bool {
    |tag: TagRow| tag.id == id
}

/// Every tag that the links give to a book is carried by a link of that
/// book: the result is the position of the link that carries the `n`-th.
pub proof fn lemma_tag_comes_from_link(rows: Seq<TagLink>, slug: Seq<char>, n: int) -> (i: int)
    requires
        0 <= n < tags_of(rows, slug).len(),
    ensures
        0 <= i < rows.len(),
        rows[i].0 == slug,
        link_tag(rows[i]) == tags_of(rows, slug)[n],
    decreases rows.len(),
{
    let rest = rows.drop_last();
    if n < tags_of(rest, slug).len() {
        let i = lemma_tag_comes_from_link(rest, slug, n);
        assert(rows[i] == rest[i]);
        i
    } else {
        rows.len() - 1
    }
}

/// A book gets a tag of a given id as often as a link gives it that tag.
pub proof fn lemma_tags_of_count(rows: Seq<TagLink>, slug: Seq<char>, tag_id: int)
    ensures
        tags_of(rows, slug).filter(tag_row_is(tag_id)).len() == rows.filter(
            link_is(slug, tag_id),
        ).len(),
    decreases rows.len(),
{
    if rows.len() == 0 {
        lemma_filter_none(tags_of(rows, slug), tag_row_is(tag_id));
        lemma_filter_none(rows, link_is(slug, tag_id));
    } else {
        let rest = rows.drop_last();
        lemma_tags_of_count(rest, slug, tag_id);
        assert(rest.push(rows.last()) =~= rows);
        lemma_filter_push(rest, link_is(slug, tag_id), rows.last());
        if rows.last().0 == slug {
            lemma_filter_push(tags_of(rest, slug), tag_row_is(tag_id), link_tag(rows.last()));
        }
    }
}

/// In the grouping, every book that occurs has exactly one entry, which
/// carries its tags, and no entry is without tags.
pub proof fn lemma_grouped(rows: Seq<TagLink>)
    ensures
        grouped(rows).len() == tagged_books(rows).len(),
        forall|i: int|
            0 <= i < grouped(rows).len() ==> (#[trigger] grouped(rows)[i]).book_slug
                == tagged_books(rows)[i] && grouped(rows)[i].tags == tags_of(
                rows,
                tagged_books(rows)[i],
            ) && grouped(rows)[i].tags.len() > 0,
        forall|i: int, j: int|
            0 <= i < j < grouped(rows).len() ==> (#[trigger] grouped(rows)[i]).book_slug != (
            #[trigger] grouped(rows)[j]).book_slug,
{
    lemma_tagged_books(rows);
    assert forall|i: int| 0 <= i < grouped(rows).len() implies (
    #[trigger] grouped(rows)[i]).tags.len() > 0 by {
        lemma_tags_of_nonempty(rows, tagged_books(rows)[i]);
    }
}

/// What one more link does to the grouping: it adds its tag to the entry
/// of its book, or adds an entry for a book that had none.
proof fn lemma_grouped_push(rows: Seq<TagLink>, link: TagLink)
    ensures
        tagged_books(rows).contains(link.0) ==> grouped(rows.push(link)) == grouped(rows).update(
            tagged_books(rows).index_of(link.0),
            BookTags { book_slug: link.0, tags: tags_of(rows, link.0).push(link_tag(link)) },
        ),
        !tagged_books(rows).contains(link.0) ==> grouped(rows.push(link)) == grouped(rows).push(
            BookTags { book_slug: link.0, tags: seq![link_tag(link)] },
        ),
{
    let more = rows.push(link);
    assert(more.drop_last() =~= rows);
    lemma_tagged_books(rows);
    lemma_tags_of_nonempty(rows, link.0);
    if tagged_books(rows).contains(link.0) {
        let k = tagged_books(rows).index_of(link.0);
        assert(grouped(more) =~= grouped(rows).update(
            k,
            BookTags { book_slug: link.0, tags: tags_of(rows, link.0).push(link_tag(link)) },
        ));
    } else {
        assert(tags_of(rows, link.0) =~= Seq::empty());
        assert(grouped(more) =~= grouped(rows).push(
            BookTags { book_slug: link.0, tags: seq![link_tag(link)] },
        ));
    }
}

impl BookTagMapping {
    /// Groups joined book-tag rows by book: one mapping for each book that
    /// occurs, in the order of first occurrence, carrying all its tags in
    /// the order of the rows. A book without a row gets no mapping.
    pub fn group_from_rows(rows: Vec<(String, i64, String, String)>) -> (groups: Vec<
        BookTagMapping,
    >)
        ensures
            views(groups@) == grouped(links(rows@)),
    {
        let mut groups: Vec<BookTagMapping> = Vec::new();
        let mut i: usize = 0;
        assert(links(rows@).take(0) =~= Seq::empty());
        assert(views(groups@) =~= grouped(links(rows@).take(0)));
        while i < rows.len()
            invariant
                i <= rows.len(),
                views(groups@) == grouped(links(rows@).take(i as int)),
            decreases rows.len() - i,
        {
            let ghost seen = links(rows@).take(i as int);
            let ghost link = links(rows@)[i as int];
            proof {
                assert(links(rows@).take(i + 1) =~= seen.push(link));
                lemma_grouped_push(seen, link);
                lemma_tagged_books(seen);
            }
            let tag = Tag { id: rows[i].1, name: rows[i].2.clone(), color: rows[i].3.clone() };
            let mut k: usize = 0;
            assert(groups@.len() == grouped(seen).len());
            while k < groups.len() && groups[k].book_slug != rows[i].0
                invariant
                    i < rows.len(),
                    k <= groups.len(),
                    groups.len() == tagged_books(seen).len(),
                    link == links(rows@)[i as int],
                    views(groups@) == grouped(seen),
                    forall|p: int| 0 <= p < k ==> tagged_books(seen)[p] != link.0,
                decreases groups.len() - k,
            {
                assert(groups@[k as int]@ == grouped(seen)[k as int]);
                k += 1;
            }
            if k < groups.len() {
                assert(groups@[k as int]@ == grouped(seen)[k as int]);
                assert(tagged_books(seen)[k as int] == link.0);
                assert(tagged_books(seen).contains(link.0));
                assert(tagged_books(seen).index_of(link.0) == k);
                let ghost before = groups@;
                groups[k].tags.push(tag);
                assert(views(groups@) =~= views(before).update(
                    k as int,
                    BookTags { book_slug: link.0, tags: tags_of(seen, link.0).push(link_tag(link)) },
                )) by {
                    assert(views(groups@[k as int].tags@) =~= views(before[k as int].tags@).push(
                        tag@,
                    ));
                }
            } else {
                assert(!tagged_books(seen).contains(link.0));
                let mut tags: Vec<Tag> = Vec::new();
                tags.push(tag);
                let ghost before = groups@;
                groups.push(BookTagMapping { book_slug: rows[i].0.clone(), tags });
                assert(views(groups@) =~= views(before).push(
                    BookTags { book_slug: link.0, tags: seq![link_tag(link)] },
                )) by {
                    assert(views(tags@) =~= seq![link_tag(link)]);
                }
            }
            i += 1;
        }
        assert(links(rows@).take(rows@.len() as int) =~= links(rows@));
        groups
    }
}

} // verus!
