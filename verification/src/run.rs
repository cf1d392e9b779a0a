use crate::deserialize::arrayptr::{element_step, ArrayPtr};
use crate::deserialize::deserializetrait::Deserialize;
use crate::deserialize::eager::Eager;
use crate::deserialize::error::Error;
use crate::deserialize::linkedlist::{lemma_node_read_push, node_address, node_read, nodes_read, Linked, MAX_LIST_LENGTH};
use crate::deserialize::ptr::Ptr;
use crate::deserialize::segments::{lemma_segments_extend, lemma_segments_push};
use crate::memory::address::Address;
use crate::memory::locator::{LocateEvent, MemoryLocator};
use crate::memory::reader::{events_since, lemma_events_chain, lemma_no_events, MemoryReader, ReadEvent};
use crate::memory::reader::other_error;
use crate::mono::class::{Class, MONO_TOKEN_TYPE_DEF};
use crate::mono::ghashtable::{looks_up_text, GHashTable};
use crate::mono::images::{image_pointer, Image, LoadedImages, MONO_LIBRARY_NAME};
use crate::mono::internalhashtable::MonoInternalHashTable;
use vstd::prelude::*;
use vstd::string::StringExecFns;

verus! {

/// The name of the image that holds the game's classes.
pub const GAME_IMAGE_NAME: &'static str = "Assembly-CSharp";

/// The name of the class that is looked for.
pub const GAME_CLASS_NAME: &'static str = "GameManager";

/// The text of the error for a class cache without buckets.
pub open spec fn empty_class_cache_text() -> Seq<char> {
    "class cache has no buckets"@
}

/// The text of the error for a chain of classes that is longer than any chain
/// can be.
pub open spec fn endless_class_chain_text() -> Seq<char> {
    "class cache chain does not end"@
}

/// The token of the type definition that a class's type token stands for.
pub open spec fn spec_type_def_token(type_token: int) -> int {
    type_token + MONO_TOKEN_TYPE_DEF
}

/// The token of the type definition with the number `type_token`: the number
/// with the mark of type definitions added. A number that does not fit is an
/// error.
pub fn type_def_token(type_token: u64) -> (r: Result<usize, Error>)
    ensures
        spec_type_def_token(type_token as int) <= usize::MAX ==> r == Ok::<usize, Error>(
            spec_type_def_token(type_token as int) as usize,
        ),
        type_token <= usize::MAX && spec_type_def_token(type_token as int) > usize::MAX ==> r == Err::<
            usize,
            Error,
        >(Error::AddressOverflowError(Address(type_token as usize))),
        type_token > usize::MAX ==> r matches Err(Error::IntConversionError(_)),
{
    let token = match usize::try_from(type_token) {
        Ok(token) => token,
        Err(error) => {
            return Err(Error::IntConversionError(error));
        },
    };
    match token.checked_add(MONO_TOKEN_TYPE_DEF) {
        Some(token) => Ok(token),
        None => Err(Error::AddressOverflowError(Address::new(token))),
    }
}

/// None of the first `count` of `classes` has the type token `token`.
pub open spec fn no_class_matches(classes: Seq<Class>, count: int, token: usize) -> bool {
    forall|i: int| 0 <= i < count ==> (#[trigger] classes[i]).spec_internals().type_token != token
}

/// What following a bucket of the class cache does, from the class at
/// `first`, for the type token `token`: the classes are read one after the
/// other, and the first class with that token ends the reading and is the
/// result. A chain that ends without such a class is an error; so is a class
/// that cannot be read, and a chain of more than [`MAX_LIST_LENGTH`] classes.
pub open spec fn class_chain_step(first: Address, token: usize, events: Seq<ReadEvent>, outcome: Result<Class, Error>) -> bool {
    exists|classes: Seq<Class>, cuts: Seq<int>|
        {
            let next = node_address(first, classes, classes.len() as int);
            &&& #[trigger] nodes_read(first, classes, cuts, events)
            &&& classes.len() <= MAX_LIST_LENGTH
            &&& match outcome {
                Ok(class) => {
                    &&& classes.len() > 0
                    &&& cuts.last() == events.len()
                    &&& no_class_matches(classes, classes.len() - 1, token)
                    &&& class == classes.last()
                    &&& class.spec_internals().type_token == token
                },
                Err(error) => {
                    &&& no_class_matches(classes, classes.len() as int, token)
                    &&& if next@ == 0 {
                        cuts.last() == events.len() && error is IoError
                    } else if classes.len() == MAX_LIST_LENGTH {
                        &&& cuts.last() == events.len()
                        &&& error matches Error::InvalidStateError(text)
                        &&& text@ == endless_class_chain_text()
                    } else {
                        Class::decodes(next, events.skip(cuts.last()), Err(error))
                    }
                },
            }
        }
}

/// What finding a class in the class cache does. A cache whose size is no
/// count, or that has no buckets, is an error with nothing read. Else the
/// first `cut` requests read the head of the bucket `token % size`, which must
/// not be zero, and the rest follow the bucket's chain.
pub open spec fn finds_class(
    cache: MonoInternalHashTable<Eager<Ptr<Class>>>,
    token: usize,
    events: Seq<ReadEvent>,
    outcome: Result<Class, Error>,
) -> bool {
    if cache.size < 0 {
        events.len() == 0 && outcome matches Err(Error::IntConversionError(_))
    } else if cache.size == 0 {
        &&& events.len() == 0
        &&& outcome matches Err(Error::InvalidStateError(text))
        &&& text@ == empty_class_cache_text()
    } else {
        exists|cut: int, head: Result<Address, Error>|
            {
                &&& 0 <= cut <= events.len()
                &&& #[trigger] element_step::<Address>(
                    cache.table.target(),
                    token as int % cache.size as int,
                    events.take(cut),
                    head,
                )
                &&& match head {
                    Err(error) => cut == events.len() && outcome == Err::<Class, Error>(error),
                    Ok(first) => first@ != 0 && class_chain_step(first, token, events.skip(cut), outcome),
                }
            }
    }
}

/// Follows a bucket of the class cache from the class at `first`, looking
/// for the class with the type token `token`. At zero there is no class.
pub fn find_in_class_chain<M: MemoryReader>(reader: &mut M, first: Address, token: usize) -> (r: Result<Class, Error>)
    ensures
        old(reader).history().is_prefix_of(final(reader).history()),
        class_chain_step(first, token, events_since(old(reader).history(), final(reader).history()), r),
{
    let ghost start = reader.history();
    let ghost mut classes: Seq<Class> = Seq::empty();
    let ghost mut cuts: Seq<int> = seq![0int];
    let mut next_addr = first;
    let mut count: usize = 0;
    proof {
        lemma_no_events(start);
    }
    if first.raw() == 0 {
        assert(nodes_read(first, classes, cuts, events_since(start, reader.history())));
        return Err(Error::IoError(other_error("Class cache entry not found")));
    }
    loop
        invariant
            start == old(reader).history(),
            start.is_prefix_of(reader.history()),
            classes.len() == count,
            nodes_read(first, classes, cuts, events_since(start, reader.history())),
            cuts.last() == events_since(start, reader.history()).len(),
            next_addr == node_address(first, classes, count as int),
            next_addr@ != 0,
            no_class_matches(classes, count as int, token),
        decreases MAX_LIST_LENGTH - count,
    {
        if count == MAX_LIST_LENGTH {
            return Err(Error::InvalidStateError(String::from_str("class cache chain does not end")));
        }
        let ghost before = reader.history();
        let class = match Class::read(reader, next_addr) {
            Ok(class) => class,
            Err(error) => {
                proof {
                    lemma_events_chain(start, before, reader.history());
                    lemma_segments_extend(
                        classes,
                        cuts,
                        events_since(start, before),
                        node_read(first, classes),
                        events_since(start, reader.history()),
                        node_read(first, classes),
                    );
                    assert(nodes_read(first, classes, cuts, events_since(start, reader.history())));
                }
                return Err(error);
            },
        };
        proof {
            lemma_events_chain(start, before, reader.history());
            let longer = classes.push(class);
            lemma_node_read_push(first, classes, class);
            lemma_segments_push(
                classes,
                cuts,
                events_since(start, before),
                node_read(first, classes),
                events_since(start, reader.history()),
                node_read(first, longer),
                class,
            );
            classes = longer;
            cuts = cuts.push(events_since(start, reader.history()).len() as int);
            assert(nodes_read(first, classes, cuts, events_since(start, reader.history())));
        }
        let class_token = class.type_token();
        if class_token as usize == token {
            return Ok(class);
        }
        let next = class.next();
        if next == 0 {
            return Err(Error::IoError(other_error("Class cache entry not found")));
        }
        next_addr = Address::new(next);
        count += 1;
    }
}

/// Finds the class with the type token `token` in the class cache `cache`.
pub fn find_class<M: MemoryReader>(
    reader: &mut M,
    cache: &MonoInternalHashTable<Eager<Ptr<Class>>>,
    token: usize,
) -> (r: Result<Class, Error>)
    ensures
        old(reader).history().is_prefix_of(final(reader).history()),
        finds_class(*cache, token, events_since(old(reader).history(), final(reader).history()), r),
{
    let ghost start = reader.history();
    proof {
        lemma_no_events(start);
    }
    let size = match usize::try_from(cache.size) {
        Ok(size) => size,
        Err(error) => {
            return Err(Error::IntConversionError(error));
        },
    };
    if size == 0 {
        return Err(Error::InvalidStateError(String::from_str("class cache has no buckets")));
    }
    let buckets = ArrayPtr::<Address>::new(cache.table.address());
    let head = buckets.nth_element(reader, token % size);
    let ghost middle = reader.history();
    proof {
        let events = events_since(start, middle);
        assert(events.take(events.len() as int) =~= events);
    }
    match head {
        Err(error) => Err(error),
        Ok(first) => {
            proof {
                <Address as Deserialize>::lemma_layout();
                let target = Address(
                    crate::deserialize::arrayptr::element_address::<Address>(
                        buckets.target(),
                        (token % size) as int,
                    ) as usize,
                );
                assert(<Address as Deserialize>::decodes(target, events_since(start, middle), head));
                crate::deserialize::ptr::lemma_present_pointer_nonzero(target, events_since(start, middle), head);
            }
            let r = find_in_class_chain(reader, first, token);
            proof {
                lemma_events_chain(start, middle, reader.history());
                let events = events_since(start, reader.history());
                let cut = events_since(start, middle).len() as int;
                assert(element_step::<Address>(
                    cache.table.target(),
                    token as int % cache.size as int,
                    events.take(cut),
                    head,
                ));
            }
            r
        },
    }
}

/// What a run does once the type token of the game's class is known: the
/// token is marked as a type definition, and the class is looked for in the
/// cache of classes of `image`. A token that cannot be marked is an error,
/// with nothing read.
pub open spec fn ends_in_class_cache(
    image: Image,
    type_token: u64,
    events: Seq<ReadEvent>,
    outcome: Result<Class, Error>,
) -> bool {
    if type_token > usize::MAX {
        events.len() == 0 && outcome matches Err(Error::IntConversionError(_))
    } else if spec_type_def_token(type_token as int) > usize::MAX {
        events.len() == 0 && outcome == Err::<Class, Error>(
            Error::AddressOverflowError(Address(type_token as usize)),
        )
    } else {
        finds_class(image.class_cache, spec_type_def_token(type_token as int) as usize, events, outcome)
    }
}

/// What a run does once the names without a namespace are at hand: with the
/// first `cut` requests the type token of the game's class is looked up
/// among them, and the rest go on from the token. A lookup that fails ends
/// the run with its error, and one that finds nothing with an error of the
/// run's own.
pub open spec fn ends_after_names(
    image: Image,
    names: GHashTable<String, u64>,
    events: Seq<ReadEvent>,
    outcome: Result<Class, Error>,
) -> bool {
    exists|cut: int, found: Result<Option<u64>, Error>|
        {
            &&& 0 <= cut <= events.len()
            &&& #[trigger] looks_up_text(names, GAME_CLASS_NAME@, events.take(cut), found)
            &&& match found {
                Err(error) => cut == events.len() && outcome == Err::<Class, Error>(error),
                Ok(None) => cut == events.len() && outcome matches Err(Error::IoError(_)),
                Ok(Some(type_token)) => ends_in_class_cache(image, type_token, events.skip(cut), outcome),
            }
        }
}

/// What a run does once the game's image is at hand: with the first `cut`
/// requests the names without a namespace are looked up in the image's cache
/// of names, and the rest go on from them.
pub open spec fn ends_after_image(image: Image, events: Seq<ReadEvent>, outcome: Result<Class, Error>) -> bool {
    exists|cut: int, found: Result<Option<Eager<Ptr<GHashTable<String, u64>>>>, Error>|
        {
            &&& 0 <= cut <= events.len()
            &&& #[trigger] looks_up_text(image.name_cache.value, ""@, events.take(cut), found)
            &&& match found {
                Err(error) => cut == events.len() && outcome == Err::<Class, Error>(error),
                Ok(None) => cut == events.len() && outcome matches Err(Error::IoError(_)),
                Ok(Some(names)) => ends_after_names(image, names.value, events.skip(cut), outcome),
            }
        }
}

/// What a run does once the table of loaded images is at hand: with the
/// first `cut` requests the game's image is looked up in it, and the rest go
/// on from the image.
pub open spec fn ends_after_images(images: LoadedImages, events: Seq<ReadEvent>, outcome: Result<Class, Error>) -> bool {
    exists|cut: int, found: Result<Option<Image>, Error>|
        {
            &&& 0 <= cut <= events.len()
            &&& #[trigger] looks_up_text(images.table(), GAME_IMAGE_NAME@, events.take(cut), image_pointer(found))
            &&& match found {
                Err(error) => cut == events.len() && outcome == Err::<Class, Error>(error),
                Ok(None) => cut == events.len() && outcome matches Err(Error::IoError(_)),
                Ok(Some(image)) => ends_after_image(image, events.skip(cut), outcome),
            }
        }
}

/// What a run does once the locator has answered. When the library was not
/// located, nothing is read, and the locator's failure is the outcome. Else
/// the first `cut` requests find the table of loaded images from the base
/// that was located, and the rest go on from the table; a table that is not
/// found ends the run with its error.
pub open spec fn runs(
    answer: Result<Address, std::io::Error>,
    events: Seq<ReadEvent>,
    outcome: Result<Class, Error>,
) -> bool {
    exists|cut: int, found: Result<LoadedImages, Error>|
        {
            &&& 0 <= cut <= events.len()
            &&& #[trigger] LoadedImages::finds_after_locating(answer, events.take(cut), found)
            &&& match found {
                Err(error) => cut == events.len() && outcome == Err::<Class, Error>(error),
                Ok(images) => ends_after_images(images, events.skip(cut), outcome),
            }
        }
}

/// Finds the class of the game in the process that `locator` and `reader`
/// look into: the locator is asked once, for the runtime library; from its
/// base the table of loaded images is found; in it the game's image; in the
/// image's cache of names the type token of the class; and with that, in the
/// image's cache of classes, the class.
///
/// Each stage reads memory, and what it finds there decides the next. The
/// first stage that fails or finds nothing ends the run with an error.
pub fn run<L: MemoryLocator, M: MemoryReader>(locator: &mut L, reader: &mut M) -> (r: Result<Class, Error>)
    ensures
        old(reader).history().is_prefix_of(final(reader).history()),
        final(locator).located() == old(locator).located().push(
            LocateEvent { library: MONO_LIBRARY_NAME@, outcome: final(locator).located().last().outcome },
        ),
        runs(
            final(locator).located().last().outcome,
            events_since(old(reader).history(), final(reader).history()),
            r,
        ),
        r matches Ok(class) ==> class.spec_internals().type_token >= MONO_TOKEN_TYPE_DEF,
{
    let ghost start = reader.history();
    let found = LoadedImages::new(locator, reader);
    let ghost middle = reader.history();
    proof {
        let events = events_since(start, middle);
        assert(events.take(events.len() as int) =~= events);
    }
    match found {
        Err(error) => Err(error),
        Ok(loaded_images) => {
            let r = find_in_images(reader, &loaded_images);
            proof {
                lemma_events_chain(start, middle, reader.history());
                let events = events_since(start, reader.history());
                let cut = events_since(start, middle).len() as int;
                assert(LoadedImages::finds_after_locating(
                    locator.located().last().outcome,
                    events.take(cut),
                    found,
                ));
            }
            r
        },
    }
}

/// Finds the class of the game through the table of loaded images.
pub fn find_in_images<M: MemoryReader>(reader: &mut M, images: &LoadedImages) -> (r: Result<Class, Error>)
    ensures
        old(reader).history().is_prefix_of(final(reader).history()),
        ends_after_images(*images, events_since(old(reader).history(), final(reader).history()), r),
        r matches Ok(class) ==> class.spec_internals().type_token >= MONO_TOKEN_TYPE_DEF,
{
    let ghost start = reader.history();
    let found = images.get_image(reader, GAME_IMAGE_NAME);
    let ghost middle = reader.history();
    proof {
        let events = events_since(start, middle);
        assert(events.take(events.len() as int) =~= events);
    }
    match found {
        Err(error) => Err(error),
        Ok(None) => Err(Error::IoError(other_error("Image not found"))),
        Ok(Some(image)) => {
            let r = find_in_image(reader, &image);
            proof {
                lemma_events_chain(start, middle, reader.history());
                let events = events_since(start, reader.history());
                let cut = events_since(start, middle).len() as int;
                assert(looks_up_text(images.table(), GAME_IMAGE_NAME@, events.take(cut), image_pointer(found)));
            }
            r
        },
    }
}

/// Finds the class of the game in its image.
pub fn find_in_image<M: MemoryReader>(reader: &mut M, image: &Image) -> (r: Result<Class, Error>)
    ensures
        old(reader).history().is_prefix_of(final(reader).history()),
        ends_after_image(*image, events_since(old(reader).history(), final(reader).history()), r),
        r matches Ok(class) ==> class.spec_internals().type_token >= MONO_TOKEN_TYPE_DEF,
{
    let ghost start = reader.history();
    let namespace = String::from_str("");
    let found = image.name_cache.value.get(reader, &namespace);
    let ghost middle = reader.history();
    proof {
        let events = events_since(start, middle);
        assert(events.take(events.len() as int) =~= events);
        assert(image.name_cache.value.looks_up(namespace, events, found));
        assert(looks_up_text(image.name_cache.value, ""@, events, found));
    }
    match found {
        Err(error) => Err(error),
        Ok(None) => Err(Error::IoError(other_error("Empty namespace not found"))),
        Ok(Some(ns_cache)) => {
            let r = find_in_names(reader, image, &ns_cache.value);
            proof {
                lemma_events_chain(start, middle, reader.history());
                let events = events_since(start, reader.history());
                let cut = events_since(start, middle).len() as int;
                assert(looks_up_text(image.name_cache.value, ""@, events.take(cut), found));
            }
            r
        },
    }
}

/// Finds the class of the game in its image, given the names without a
/// namespace.
pub fn find_in_names<M: MemoryReader>(reader: &mut M, image: &Image, names: &GHashTable<String, u64>) -> (r: Result<
    Class,
    Error,
>)
    ensures
        old(reader).history().is_prefix_of(final(reader).history()),
        ends_after_names(*image, *names, events_since(old(reader).history(), final(reader).history()), r),
        r matches Ok(class) ==> class.spec_internals().type_token >= MONO_TOKEN_TYPE_DEF,
{
    let ghost start = reader.history();
    let class_name = String::from_str(GAME_CLASS_NAME);
    let found = names.get(reader, &class_name);
    let ghost middle = reader.history();
    proof {
        let events = events_since(start, middle);
        assert(events.take(events.len() as int) =~= events);
        assert(events.skip(events.len() as int) =~= Seq::<ReadEvent>::empty());
        assert(names.looks_up(class_name, events, found));
        assert(looks_up_text(*names, GAME_CLASS_NAME@, events, found));
    }
    match found {
        Err(error) => Err(error),
        Ok(None) => Err(Error::IoError(other_error("GameManager type token not found"))),
        Ok(Some(type_token)) => {
            let token = match type_def_token(type_token) {
                Ok(token) => token,
                Err(error) => {
                    assert(ends_in_class_cache(*image, type_token, Seq::<ReadEvent>::empty(), Err(error)));
                    return Err(error);
                },
            };
            let r = find_class(reader, &image.class_cache, token);
            proof {
                lemma_events_chain(start, middle, reader.history());
                let events = events_since(start, reader.history());
                let cut = events_since(start, middle).len() as int;
                assert(looks_up_text(*names, GAME_CLASS_NAME@, events.take(cut), found));
                lemma_found_class_has_token(image.class_cache, token, events_since(middle, reader.history()), r);
            }
            r
        },
    }
}

/// A class that was found in the class cache has the token it was looked up
/// by.
pub proof fn lemma_found_class_has_token(
    cache: MonoInternalHashTable<Eager<Ptr<Class>>>,
    token: usize,
    events: Seq<ReadEvent>,
    outcome: Result<Class, Error>,
)
    requires
        finds_class(cache, token, events, outcome),
    ensures
        outcome matches Ok(class) ==> class.spec_internals().type_token == token,
{
    if outcome is Ok {
        let (cut, head) = choose|cut: int, head: Result<Address, Error>|
            {
                &&& 0 <= cut <= events.len()
                &&& #[trigger] element_step::<Address>(
                    cache.table.target(),
                    token as int % cache.size as int,
                    events.take(cut),
                    head,
                )
                &&& match head {
                    Err(error) => cut == events.len() && outcome == Err::<Class, Error>(error),
                    Ok(first) => first@ != 0 && class_chain_step(first, token, events.skip(cut), outcome),
                }
            };
    }
}

} // verus!
