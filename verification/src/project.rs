//! An open project: the working store materialized from one archive
//! file, the raster files that came with it, and the connection guard.
//!
//! The caller hands in archive bytes and receives archive bytes back;
//! reading and writing the file, and everything else around the engine,
//! stays outside.  A snapshot packs the store and images into a fresh
//! archive; snapshotting without reopening closes the store for good,
//! after which every operation fails cleanly.

use vstd::prelude::*;

use crate::codec::ContentV;
use crate::codec::ImageEntry;
use crate::codec::ImageEntryV;
use crate::codec::read_container;
use crate::codec::spec_open_archive;
use crate::codec::spec_parse_container;
use crate::codec::write_container;
use crate::model::Area;
use crate::model::AreaUpdate;
use crate::model::NewArea;
use crate::model::StoreError;
use crate::outside::decode_image;
use crate::outside::image_decodable;
use crate::outside::new_uuid_string;
use crate::outside::zstd_compress;
use crate::outside::zstd_decompress;
use crate::store::AreaRowV;
use crate::store::StoreView;
use crate::store::area_lookup;
use crate::store::areas_without;
use crate::store::streets_without_area;
use crate::store::addresses_without_area;
use crate::store::teams_without_area;
use crate::store::assignments_without_area;
use crate::store::polys_without_street_area;
use crate::store::bounds_without_team_area;
use crate::store::WorkingStore;
use crate::store::meta_lookup;
use crate::store::area_of_row;

verus! {

/// The raster bytes stored under a file name, by first match.
pub open spec fn image_lookup(images: Seq<ImageEntryV>, name: Seq<char>) -> Option<Seq<u8>>
    decreases images.len(),
{
    if images.len() == 0 {
        None
    } else if images[0].name == name {
        Some(images[0].data)
    } else {
        image_lookup(images.drop_first(), name)
    }
}

/// An open project as a mathematical value.
#[verifier::ext_equal]
pub struct ProjectView {
    pub store: StoreView,
    pub images: Seq<ImageEntryV>,
    pub open: bool,
}

/// An open project: the working store, its raster files, and whether
/// the store still serves.
pub struct Project {
    store: WorkingStore,
    images: Vec<ImageEntry>,
    is_open: bool,
}

impl vstd::view::View for Project {
    type V = ProjectView;

    closed spec fn view(&self) -> ProjectView {
        ProjectView {
            store: self.store@,
            images: self.images.deep_view(),
            open: self.is_open,
        }
    }
}

/// A handle on one area: its id and its decoded map image.  The handle
/// is obtained while the area exists; re-fetching through it after the
/// area is deleted is the one lookup that is a hard error.
pub struct AreaHandle {
    pub area_id: i64,
    pub image: image::DynamicImage,
}

impl AreaHandle {
    /// The decoded map image of the area.
    pub fn get_image(&self) -> &image::DynamicImage {
        &self.image
    }
}

impl Project {
    /// A fresh empty project, open for work.
    pub fn create() -> (p: Project)
        ensures
            p@.store == StoreView::empty(),
            p@.store.wf(),
            p@.images =~= Seq::<ImageEntryV>::empty(),
            p@.open,
    {
        let p = Project { store: WorkingStore::new(), images: Vec::new(), is_open: true };
        proof {
            assert(p@.images =~= Seq::<ImageEntryV>::empty());
        }
        p
    }

    /// Open a project from the bytes of its archive file: decompress,
    /// unpack, validate the layout and the store.  Succeeds exactly when
    /// the specification accepts the archive, and each failure names its
    /// reason: an undecodable archive, or a partial layout.
    pub fn from_archive_bytes(bytes: &Vec<u8>) -> (r: Result<Project, StoreError>)
        ensures
            match r {
                Ok(p) => {
                    &&& spec_open_archive(bytes@) == Ok::<ContentV, StoreError>(
                        ContentV { store: p@.store, images: p@.images },
                    )
                    &&& p@.store.wf()
                    &&& p@.open
                },
                Err(e) => spec_open_archive(bytes@) == Err::<ContentV, StoreError>(e),
            },
    {
        let raw = match zstd_decompress(bytes) {
            Ok(raw) => raw,
            Err(e) => {
                return Err(e);
            },
        };
        match read_container(&raw) {
            Ok((store, images)) => Ok(Project { store, images, is_open: true }),
            Err(e) => Err(e),
        }
    }

    /// Whether the store is still serving.
    pub fn is_open(&self) -> (r: bool)
        ensures
            r == self@.open,
    {
        self.is_open
    }

    /// Acquire the connection for one logical query: exclusive access to
    /// the working store.  Fails cleanly when the store has been shut
    /// down by a final snapshot.
    pub fn acquire_connection(&mut self) -> (r: Result<&mut WorkingStore, StoreError>)
        ensures
            match r {
                Ok(c) => {
                    &&& old(self)@.open
                    &&& (*c)@ == old(self)@.store
                    &&& final(self)@.store == (*final(c))@
                    &&& final(self)@.images == old(self)@.images
                    &&& final(self)@.open == old(self)@.open
                },
                Err(e) => {
                    &&& e == StoreError::Closed
                    &&& !old(self)@.open
                    &&& final(self)@ == old(self)@
                },
            },
    {
        if !self.is_open {
            return Err(StoreError::Closed);
        }
        Ok(&mut self.store)
    }

    /// All areas, listed by ascending id.
    pub fn get_areas(&self) -> (r: Result<Vec<Area>, StoreError>)
        requires
            self@.store.wf(),
        ensures
            match r {
                Ok(areas) => {
                    &&& self@.open
                    &&& areas.deep_view().len() == self@.store.areas.len()
                    &&& forall|i: int|
                        0 <= i < self@.store.areas.len() ==> areas.deep_view()[i] == area_of_row(
                            #[trigger] self@.store.areas[i],
                        )
                },
                Err(e) => e == StoreError::Closed && !self@.open,
            },
    {
        if !self.is_open {
            return Err(StoreError::Closed);
        }
        Ok(self.store.get_areas())
    }

    /// Store raster bytes under a freshly generated file name, keeping
    /// generated names collision-free.  The rare draw of a name that is
    /// already taken is reported as a uniqueness failure rather than
    /// overwriting the older file.
    pub fn store_image(&mut self, data: Vec<u8>, ext: &str) -> (r: Result<String, StoreError>)
        ensures
            match r {
                Ok(name) => {
                    &&& old(self)@.open
                    &&& image_lookup(old(self)@.images, name@) is None
                    &&& name@.len() == 37 + ext@.len()
                    &&& name@[36] == '.'
                    &&& name@.skip(37) == ext@
                    &&& final(self)@ == (ProjectView {
                        images: old(self)@.images.push(
                            ImageEntryV { name: name@, data: data@ },
                        ),
                        ..old(self)@
                    })
                },
                Err(e) => {
                    &&& final(self)@ == old(self)@
                    &&& (e == StoreError::Closed || e == StoreError::Uniqueness)
                    &&& (e == StoreError::Closed <==> !old(self)@.open)
                    &&& (e == StoreError::Uniqueness ==> old(self)@.images.len() > 0)
                },
            },
    {
        if !self.is_open {
            return Err(StoreError::Closed);
        }
        let base = new_uuid_string();
        let name = join_name(&base, ext);
        proof {
            assert(name@.len() == 37 + ext@.len());
            assert(name@[36] == '.');
            assert(name@.skip(37) =~= ext@);
        }
        if self.image_idx(&name).is_some() {
            return Err(StoreError::Uniqueness);
        }
        proof {
            lemma_image_lookup_absent(self@.images, name@);
        }
        let ghost pre = self@;
        let namev = name.clone();
        self.images.push(ImageEntry { name: namev, data });
        proof {
            assert(self@.images =~= pre.images.push(ImageEntryV { name: name@, data: data@ }));
            assert(self@ =~~= (ProjectView {
                images: pre.images.push(ImageEntryV { name: name@, data: data@ }),
                ..pre
            }));
        }
        Ok(name)
    }

    /// The position of the raster entry with the given name.
    fn image_idx(&self, name: &String) -> (r: Option<usize>)
        ensures
            match r {
                Some(i) => 0 <= i < self@.images.len() && self@.images[i as int].name == name@,
                None => forall|k: int|
                    0 <= k < self@.images.len() ==> #[trigger] self@.images[k].name != name@,
            },
    {
        let mut idx: usize = 0;
        while idx < self.images.len()
            invariant
                idx <= self.images.len(),
                forall|k: int| 0 <= k < idx ==> #[trigger] self@.images[k].name != name@,
            decreases self.images.len() - idx,
        {
            if self.images[idx].name.eq(name) {
                proof {
                    assert(self@.images[idx as int].name == name@);
                }
                return Some(idx);
            }
            idx += 1;
        }
        None
    }

    /// The raster bytes stored under the given name.
    #[verifier::loop_isolation(false)]
    pub fn load_image(&self, name: &String) -> (r: Result<Vec<u8>, StoreError>)
        ensures
            match r {
                Ok(data) => self@.open && image_lookup(self@.images, name@) == Some(data@),
                Err(e) => {
                    &&& (e == StoreError::Closed || e == StoreError::NotFound)
                    &&& (e == StoreError::Closed <==> !self@.open)
                    &&& (e == StoreError::NotFound <==> self@.open && image_lookup(
                        self@.images,
                        name@,
                    ) is None)
                },
            },
    {
        if !self.is_open {
            return Err(StoreError::Closed);
        }
        let ghost all = self@.images;
        let mut idx: usize = 0;
        proof {
            assert(all.skip(0) =~= all);
        }
        while idx < self.images.len()
            invariant
                idx <= self.images.len(),
                image_lookup(all, name@) == image_lookup(all.skip(idx as int), name@),
            decreases self.images.len() - idx,
        {
            let ghost rest = all.skip(idx as int);
            proof {
                assert(rest[0] == all[idx as int]);
                assert(rest.drop_first() =~= all.skip(idx as int + 1));
            }
            if self.images[idx].name.eq(name) {
                let data = crate::codec::copy_bytes(&self.images[idx].data);
                proof {
                    assert(rest[0].name == name@);
                    assert(image_lookup(rest, name@) == Some(all[idx as int].data));
                }
                return Ok(data);
            }
            idx += 1;
        }
        proof {
            assert(all.skip(all.len() as int) =~= Seq::<ImageEntryV>::empty());
        }
        Err(StoreError::NotFound)
    }

    /// Remove the raster bytes stored under the given name, if any; the
    /// first entry bearing the name goes.  An area that still names the
    /// file simply finds it missing afterwards, as with any store whose
    /// files are removed out from under it.
    #[verifier::loop_isolation(false)]
    pub fn delete_image(&mut self, name: &String) -> (r: Result<(), StoreError>)
        ensures
            match r {
                Ok(_) => {
                    &&& old(self)@.open
                    &&& final(self)@ == (ProjectView {
                        images: final(self)@.images,
                        ..old(self)@
                    })
                    &&& (match image_lookup(old(self)@.images, name@) {
                        Some(_) => exists|i: int|
                            {
                                &&& 0 <= i < old(self)@.images.len()
                                &&& #[trigger] old(self)@.images[i].name == name@
                                &&& (forall|k: int|
                                    0 <= k < i ==> #[trigger] old(self)@.images[k].name != name@)
                                &&& final(self)@.images == old(self)@.images.remove(i)
                            },
                        None => final(self)@ == old(self)@,
                    })
                },
                Err(e) => {
                    &&& e == StoreError::Closed
                    &&& !old(self)@.open
                    &&& final(self)@ == old(self)@
                },
            },
    {
        if !self.is_open {
            return Err(StoreError::Closed);
        }
        let ghost all = self@.images;
        let mut idx: usize = 0;
        proof {
            assert(all.skip(0) =~= all);
        }
        while idx < self.images.len()
            invariant
                *self == *old(self),
                idx <= self.images.len(),
                image_lookup(all, name@) == image_lookup(all.skip(idx as int), name@),
                forall|k: int| 0 <= k < idx ==> #[trigger] all[k].name != name@,
            decreases self.images.len() - idx,
        {
            let ghost rest = all.skip(idx as int);
            proof {
                assert(rest[0] == all[idx as int]);
                assert(rest.drop_first() =~= all.skip(idx as int + 1));
            }
            if self.images[idx].name.eq(name) {
                self.images.remove(idx);
                proof {
                    assert(rest[0].name == name@);
                    assert(image_lookup(all, name@) == Some(all[idx as int].data));
                    assert(self@.images =~= all.remove(idx as int));
                    assert(self@ =~~= (ProjectView { images: self@.images, ..old(self)@ }));
                }
                return Ok(());
            }
            idx += 1;
        }
        proof {
            assert(all.skip(all.len() as int) =~= Seq::<ImageEntryV>::empty());
            assert(self@ =~~= (ProjectView { images: self@.images, ..old(self)@ }));
        }
        Ok(())
    }

    /// Copy the map image into the store and insert the new area, which
    /// starts in the `Imported` state.  Fails when the raster bytes are
    /// not a readable image, and never stores bytes it cannot decode.
    pub fn add_area(&mut self, new_area: &NewArea) -> (r: Result<AreaHandle, StoreError>)
        requires
            old(self)@.store.wf(),
        ensures
            final(self)@.store.wf(),
            match r {
                Ok(h) => {
                    &&& old(self)@.open
                    &&& image_decodable(new_area.image_bytes@)
                    &&& h.area_id == old(self)@.store.next_area_id()
                    &&& final(self)@.open == old(self)@.open
                    &&& exists|fname: Seq<char>|
                        {
                            &&& #[trigger] image_lookup(final(self)@.images, fname) == Some(
                                new_area.image_bytes@,
                            )
                            &&& final(self)@.store =~~= old(self)@.store.with_areas(
                                old(self)@.store.areas.push(
                                    AreaRowV {
                                        id: h.area_id,
                                        name: new_area.name@,
                                        color: new_area.color,
                                        state: crate::model::AreaState::Imported,
                                        image_fname: fname,
                                    },
                                ),
                            )
                        }
                },
                Err(e) => {
                    &&& final(self)@ == old(self)@
                    &&& (e == StoreError::Closed || e == StoreError::BadImage
                        || e == StoreError::Uniqueness || e == StoreError::Full)
                    &&& (e == StoreError::Closed <==> !old(self)@.open)
                    &&& (e == StoreError::BadImage <==> old(self)@.open && !image_decodable(
                        new_area.image_bytes@,
                    ))
                    &&& (e == StoreError::Uniqueness ==> old(self)@.images.len() > 0)
                    &&& (e == StoreError::Full ==> old(self)@.store.next_area_id() > i64::MAX)
                },
            },
    {
        if !self.is_open {
            return Err(StoreError::Closed);
        }
        if let Err(e) = decode_image(&new_area.image_bytes) {
            return Err(e);
        }
        let data = crate::codec::copy_bytes(&new_area.image_bytes);
        let fname = match self.store_image(data, new_area.image_ext.as_str()) {
            Ok(fname) => fname,
            Err(e) => {
                return Err(e);
            },
        };
        let ghost mid = self@;
        let area = match self.store.add_area(new_area.name.as_str(), new_area.color, fname.as_str())
        {
            Ok(area) => area,
            Err(e) => {
                // Id space exhausted: take the fresh image entry back out.
                proof {
                    assert(self@.images.len() > 0);
                }
                let last = self.images.len() - 1;
                self.images.remove(last);
                proof {
                    assert(self@.images =~= mid.images.remove(mid.images.len() - 1));
                    assert(self@.images =~= old(self)@.images);
                    assert(self@ =~~= old(self)@);
                }
                return Err(e);
            },
        };
        proof {
            lemma_image_lookup_none_absent(old(self)@.images, fname@);
            lemma_image_lookup_push(old(self)@.images, fname@, new_area.image_bytes@);
            assert(mid.images == old(self)@.images.push(
                ImageEntryV { name: fname@, data: new_area.image_bytes@ },
            ));
            assert(image_lookup(self@.images, fname@) == Some(new_area.image_bytes@));
            assert(self@.store =~~= old(self)@.store.with_areas(
                old(self)@.store.areas.push(
                    AreaRowV {
                        id: area.id,
                        name: new_area.name@,
                        color: new_area.color,
                        state: crate::model::AreaState::Imported,
                        image_fname: fname@,
                    },
                ),
            ));
        }
        let image = match decode_image(&new_area.image_bytes) {
            Ok(img) => img,
            Err(e) => {
                proof {
                    assert(false);
                }
                return Err(e);
            },
        };
        Ok(AreaHandle { area_id: area.id, image })
    }

    /// Fetch a handle on the area with the given id, loading its map
    /// image.  Succeeds exactly when the store serves, the area exists,
    /// its image file is stored, and the stored bytes decode.  Fails
    /// with `NotFound` when the area or its file is missing (also for a
    /// handle whose area was deleted), and with `BadImage` when the
    /// stored bytes no longer decode.
    pub fn get_area_repo(&self, id: i64) -> (r: Result<AreaHandle, StoreError>)
        requires
            self@.store.wf(),
        ensures
            match r {
                Ok(h) => {
                    &&& self@.open
                    &&& h.area_id == id
                    &&& (area_lookup(self@.store.areas, id) matches Some(row) && image_lookup(
                        self@.images,
                        row.image_fname,
                    ) matches Some(data) && image_decodable(data))
                },
                Err(e) => {
                    &&& (e == StoreError::Closed || e == StoreError::NotFound
                        || e == StoreError::BadImage)
                    &&& (e == StoreError::Closed <==> !self@.open)
                    &&& (e == StoreError::NotFound <==> self@.open && (match area_lookup(
                        self@.store.areas,
                        id,
                    ) {
                        None => true,
                        Some(row) => image_lookup(self@.images, row.image_fname) is None,
                    }))
                    &&& (e == StoreError::BadImage <==> self@.open && (area_lookup(
                        self@.store.areas,
                        id,
                    ) matches Some(row) && image_lookup(self@.images, row.image_fname) matches Some(
                        data,
                    ) && !image_decodable(data)))
                },
            },
    {
        if !self.is_open {
            return Err(StoreError::Closed);
        }
        let fname = match self.store.area_image_fname(id) {
            Some(fname) => fname,
            None => {
                return Err(StoreError::NotFound);
            },
        };
        let data = match self.load_image(&fname) {
            Ok(data) => data,
            Err(_) => {
                return Err(StoreError::NotFound);
            },
        };
        match decode_image(&data) {
            Ok(image) => Ok(AreaHandle { area_id: id, image }),
            Err(e) => Err(e),
        }
    }

    /// The area behind a handle.  Fails with `NotFound` once the area
    /// has been deleted: the handle is then invalid.
    pub fn get_area(&self, handle: &AreaHandle) -> (r: Result<Area, StoreError>)
        requires
            self@.store.wf(),
        ensures
            match r {
                Ok(area) => self@.open && exists|i: int|
                    0 <= i < self@.store.areas.len() && #[trigger] self@.store.areas[i].id
                        == handle.area_id && area@ == area_of_row(self@.store.areas[i]),
                Err(e) => {
                    &&& (e == StoreError::Closed || e == StoreError::NotFound)
                    &&& (e == StoreError::Closed <==> !self@.open)
                    &&& (e == StoreError::NotFound <==> self@.open && !self@.store.has_area(
                        handle.area_id,
                    ))
                },
            },
    {
        if !self.is_open {
            return Err(StoreError::Closed);
        }
        match self.store.get_area_by_id(handle.area_id) {
            Some(area) => Ok(area),
            None => Err(StoreError::NotFound),
        }
    }

    /// Apply a partial update to the area behind a handle.
    pub fn update_area(&mut self, handle: &AreaHandle, update: &AreaUpdate) -> (r: Result<
        Area,
        StoreError,
    >)
        requires
            old(self)@.store.wf(),
        ensures
            final(self)@.store.wf(),
            final(self)@.images == old(self)@.images,
            final(self)@.open == old(self)@.open,
            match r {
                Ok(area) => old(self)@.open && exists|i: int|
                    {
                        &&& 0 <= i < old(self)@.store.areas.len()
                        &&& #[trigger] old(self)@.store.areas[i].id == handle.area_id
                        &&& area@ == area_of_row(final(self)@.store.areas[i])
                        &&& area.id == handle.area_id
                        &&& area@.name == (match update.name.deep_view() {
                            Some(n) => n,
                            None => old(self)@.store.areas[i].name,
                        })
                        &&& area@.color == (match update.color {
                            Some(c) => c,
                            None => old(self)@.store.areas[i].color,
                        })
                        &&& area@.state == (match update.state {
                            Some(s) => s,
                            None => old(self)@.store.areas[i].state,
                        })
                    },
                Err(e) => {
                    &&& (e == StoreError::Closed || e == StoreError::NotFound)
                    &&& final(self)@ == old(self)@
                    &&& (e == StoreError::Closed <==> !old(self)@.open)
                    &&& (e == StoreError::NotFound <==> old(self)@.open
                        && !old(self)@.store.has_area(handle.area_id))
                },
            },
    {
        if !self.is_open {
            return Err(StoreError::Closed);
        }
        self.store.update_area(handle.area_id, update)
    }

    /// Delete the area behind a handle, consuming the handle, and with
    /// it everything the area owns.  The handle cannot be used again.
    pub fn delete_area(&mut self, handle: AreaHandle) -> (r: Result<(), StoreError>)
        requires
            old(self)@.store.wf(),
        ensures
            final(self)@.store.wf(),
            final(self)@.images == old(self)@.images,
            final(self)@.open == old(self)@.open,
            match r {
                Ok(_) => {
                    &&& old(self)@.open
                    &&& !final(self)@.store.has_area(handle.area_id)
                    &&& (forall|aid: i64|
                        aid != handle.area_id ==> (#[trigger] final(self)@.store.has_area(aid)
                            == old(self)@.store.has_area(aid)))
                    &&& final(self)@.store.areas == areas_without(
                        old(self)@.store.areas,
                        handle.area_id,
                    )
                    &&& final(self)@.store.streets == streets_without_area(
                        old(self)@.store.streets,
                        handle.area_id,
                    )
                    &&& final(self)@.store.street_polylines == polys_without_street_area(
                        old(self)@.store.street_polylines,
                        old(self)@.store.streets,
                        handle.area_id,
                    )
                    &&& final(self)@.store.addresses == addresses_without_area(
                        old(self)@.store.addresses,
                        handle.area_id,
                    )
                    &&& final(self)@.store.teams == teams_without_area(
                        old(self)@.store.teams,
                        handle.area_id,
                    )
                    &&& final(self)@.store.assignments == assignments_without_area(
                        old(self)@.store.assignments,
                        handle.area_id,
                    )
                    &&& final(self)@.store.team_bounds == bounds_without_team_area(
                        old(self)@.store.team_bounds,
                        old(self)@.store.teams,
                        handle.area_id,
                    )
                    &&& final(self)@.store.meta == old(self)@.store.meta
                },
                Err(e) => {
                    &&& e == StoreError::Closed
                    &&& !old(self)@.open
                    &&& final(self)@ == old(self)@
                },
            },
    {
        if !self.is_open {
            return Err(StoreError::Closed);
        }
        self.store.delete_area(handle.area_id);
        Ok(())
    }

    /// Snapshot: pack the store and the raster files into a fresh
    /// archive.  What comes back opens to exactly the content packed.
    /// With `reopen` the store keeps serving afterwards; without it the
    /// store shuts for good and every later operation fails cleanly.
    pub fn snapshot_bytes(&mut self, reopen: bool) -> (r: Result<Vec<u8>, StoreError>)
        requires
            old(self)@.store.wf(),
        ensures
            final(self)@.store == old(self)@.store,
            final(self)@.images == old(self)@.images,
            match r {
                Ok(v) => {
                    &&& old(self)@.open
                    &&& final(self)@.open == reopen
                    &&& spec_open_archive(v@) == Ok::<ContentV, StoreError>(
                        ContentV { store: old(self)@.store, images: old(self)@.images },
                    )
                },
                Err(e) => {
                    &&& (e == StoreError::Closed || e == StoreError::Io)
                    &&& final(self)@ == old(self)@
                    &&& (e == StoreError::Closed <==> !old(self)@.open)
                    &&& (e == StoreError::Io ==> exists|raw: Seq<u8>|
                        #[trigger] spec_parse_container(raw) == Ok::<ContentV, StoreError>(
                            ContentV { store: old(self)@.store, images: old(self)@.images },
                        ) && !crate::outside::zstd_encode_ok(raw))
                },
            },
    {
        if !self.is_open {
            return Err(StoreError::Closed);
        }
        let raw = write_container(&self.store, &self.images);
        let packed = match zstd_compress(&raw) {
            Ok(v) => v,
            Err(e) => {
                proof {
                    assert(spec_parse_container(raw@) == Ok::<ContentV, StoreError>(
                        ContentV { store: old(self)@.store, images: old(self)@.images },
                    ) && !crate::outside::zstd_encode_ok(raw@));
                }
                return Err(e);
            },
        };
        self.is_open = reopen;
        proof {
            assert(self@ =~~= (ProjectView { open: reopen, ..old(self)@ }));
        }
        Ok(packed)
    }

    /// Save the project: snapshot and keep serving.
    pub fn save_project(&mut self) -> (r: Result<Vec<u8>, StoreError>)
        requires
            old(self)@.store.wf(),
        ensures
            final(self)@.store == old(self)@.store,
            final(self)@.images == old(self)@.images,
            match r {
                Ok(v) => {
                    &&& old(self)@.open
                    &&& final(self)@.open
                    &&& spec_open_archive(v@) == Ok::<ContentV, StoreError>(
                        ContentV { store: old(self)@.store, images: old(self)@.images },
                    )
                },
                Err(e) => {
                    &&& (e == StoreError::Closed || e == StoreError::Io)
                    &&& final(self)@ == old(self)@
                    &&& (e == StoreError::Closed <==> !old(self)@.open)
                    &&& (e == StoreError::Io ==> exists|raw: Seq<u8>|
                        #[trigger] spec_parse_container(raw) == Ok::<ContentV, StoreError>(
                            ContentV { store: old(self)@.store, images: old(self)@.images },
                        ) && !crate::outside::zstd_encode_ok(raw))
                },
            },
    {
        self.snapshot_bytes(true)
    }
}

/// A name absent from the table answers no lookup.
pub proof fn lemma_image_lookup_absent(images: Seq<ImageEntryV>, name: Seq<char>)
    requires
        forall|k: int| 0 <= k < images.len() ==> #[trigger] images[k].name != name,
    ensures
        image_lookup(images, name) is None,
    decreases images.len(),
{
    if images.len() > 0 {
        let rest = images.drop_first();
        assert forall|k: int| 0 <= k < rest.len() implies #[trigger] rest[k].name != name by {
            assert(rest[k] == images[k + 1]);
        }
        lemma_image_lookup_absent(rest, name);
    }
}

impl Project {
    /// The project's display name from the metadata, if set.
    pub fn get_project_name(&self) -> (r: Result<String, StoreError>)
        requires
            self@.store.wf(),
        ensures
            match r {
                Ok(v) => self@.open && meta_lookup(self@.store.meta, "name"@) == Some(v@),
                Err(e) => {
                    &&& (e == StoreError::Closed || e == StoreError::NotFound)
                    &&& (e == StoreError::Closed <==> !self@.open)
                    &&& (e == StoreError::NotFound <==> self@.open && meta_lookup(
                        self@.store.meta,
                        "name"@,
                    ) is None)
                },
            },
    {
        if !self.is_open {
            return Err(StoreError::Closed);
        }
        let key = String::from_str("name");
        match self.store.meta_get(&key) {
            Some(v) => Ok(v),
            None => Err(StoreError::NotFound),
        }
    }

    /// The project's creation timestamp as stored: RFC 3339 text.
    pub fn get_project_created_at(&self) -> (r: Result<String, StoreError>)
        requires
            self@.store.wf(),
        ensures
            match r {
                Ok(v) => self@.open && meta_lookup(self@.store.meta, "created_at"@) == Some(v@),
                Err(e) => {
                    &&& (e == StoreError::Closed || e == StoreError::NotFound)
                    &&& (e == StoreError::Closed <==> !self@.open)
                    &&& (e == StoreError::NotFound <==> self@.open && meta_lookup(
                        self@.store.meta,
                        "created_at"@,
                    ) is None)
                },
            },
    {
        if !self.is_open {
            return Err(StoreError::Closed);
        }
        let key = String::from_str("created_at");
        match self.store.meta_get(&key) {
            Some(v) => Ok(v),
            None => Err(StoreError::NotFound),
        }
    }

    /// The target address count from the metadata: stored as decimal
    /// text, handed out as a number.
    pub fn get_target_address_count(&self) -> (r: Result<u64, StoreError>)
        requires
            self@.store.wf(),
        ensures
            match r {
                Ok(n) => self@.open && (meta_lookup(self@.store.meta, "target_address_count"@)
                    matches Some(v) && crate::text::spec_parse_u64(v) == Some(n)),
                Err(e) => {
                    &&& (e == StoreError::Closed || e == StoreError::NotFound
                        || e == StoreError::BadValue)
                    &&& (e == StoreError::Closed <==> !self@.open)
                    &&& (e == StoreError::NotFound <==> self@.open && meta_lookup(
                        self@.store.meta,
                        "target_address_count"@,
                    ) is None)
                    &&& (e == StoreError::BadValue <==> self@.open && (meta_lookup(
                        self@.store.meta,
                        "target_address_count"@,
                    ) matches Some(v) && crate::text::spec_parse_u64(v) is None))
                },
            },
    {
        if !self.is_open {
            return Err(StoreError::Closed);
        }
        let key = String::from_str("target_address_count");
        let text = match self.store.meta_get(&key) {
            Some(v) => v,
            None => {
                return Err(StoreError::NotFound);
            },
        };
        match crate::text::parse_u64(text.as_str()) {
            Some(n) => Ok(n),
            None => Err(StoreError::BadValue),
        }
    }

    /// Apply a partial update to the project metadata: each supplied
    /// field is stored under its key, every other key keeps its value.
    /// The target count is stored as decimal text, the timestamp as the
    /// text the caller supplies.
    pub fn set_project_settings(&mut self, settings: &crate::model::UpdateProjectSettings) -> (r:
        Result<(), StoreError>)
        requires
            old(self)@.store.wf(),
        ensures
            final(self)@.store.wf(),
            final(self)@.images == old(self)@.images,
            final(self)@.open == old(self)@.open,
            final(self)@.store == old(self)@.store.with_meta(final(self)@.store.meta),
            match r {
                Ok(_) => {
                    &&& old(self)@.open
                    &&& meta_lookup(final(self)@.store.meta, "name"@) == (
                    match settings.name.deep_view() {
                        Some(n) => Some(n),
                        None => meta_lookup(old(self)@.store.meta, "name"@),
                    })
                    &&& meta_lookup(final(self)@.store.meta, "target_address_count"@) == (
                    match settings.target_address_count {
                        Some(t) => Some(crate::text::dec_digits(t)),
                        None => meta_lookup(old(self)@.store.meta, "target_address_count"@),
                    })
                    &&& meta_lookup(final(self)@.store.meta, "created_at"@) == (
                    match settings.created_at.deep_view() {
                        Some(c) => Some(c),
                        None => meta_lookup(old(self)@.store.meta, "created_at"@),
                    })
                    &&& forall|k: Seq<char>|
                        k != "name"@ && k != "target_address_count"@ && k != "created_at"@
                            ==> #[trigger] meta_lookup(final(self)@.store.meta, k) == meta_lookup(
                            old(self)@.store.meta,
                            k,
                        )
                },
                Err(e) => {
                    &&& e == StoreError::Closed
                    &&& !old(self)@.open
                    &&& final(self)@ == old(self)@
                },
            },
    {
        if !self.is_open {
            return Err(StoreError::Closed);
        }
        proof {
            reveal_strlit("name");
            reveal_strlit("target_address_count");
            reveal_strlit("created_at");
            assert("name"@.len() == 4 && "target_address_count"@.len() == 20 && "created_at"@.len()
                == 10);
        }
        match &settings.name {
            Some(n) => {
                let key = String::from_str("name");
                self.store.meta_set(&key, n);
            },
            None => {},
        }
        let ghost after_name = self@.store.meta;
        match settings.target_address_count {
            Some(t) => {
                let key = String::from_str("target_address_count");
                let text = crate::text::format_u64(t);
                self.store.meta_set(&key, &text);
            },
            None => {},
        }
        let ghost after_target = self@.store.meta;
        match &settings.created_at {
            Some(c) => {
                let key = String::from_str("created_at");
                self.store.meta_set(&key, c);
            },
            None => {},
        }
        proof {
            assert(self@ =~~= (ProjectView {
                store: old(self)@.store.with_meta(self@.store.meta),
                ..old(self)@
            }));
        }
        Ok(())
    }
}

/// A lookup that finds nothing means the name appears nowhere.
pub proof fn lemma_image_lookup_none_absent(images: Seq<ImageEntryV>, name: Seq<char>)
    requires
        image_lookup(images, name) is None,
    ensures
        forall|k: int| 0 <= k < images.len() ==> #[trigger] images[k].name != name,
    decreases images.len(),
{
    if images.len() > 0 {
        let rest = images.drop_first();
        lemma_image_lookup_none_absent(rest, name);
        assert forall|k: int| 0 <= k < images.len() implies #[trigger] images[k].name != name by {
            if k > 0 {
                assert(rest[k - 1] == images[k]);
            }
        }
    }
}

/// Appending a fresh name stores its bytes under that name.
pub proof fn lemma_image_lookup_push(images: Seq<ImageEntryV>, name: Seq<char>, data: Seq<u8>)
    requires
        forall|k: int| 0 <= k < images.len() ==> #[trigger] images[k].name != name,
    ensures
        image_lookup(images.push(ImageEntryV { name, data }), name) == Some(data),
    decreases images.len(),
{
    let out = images.push(ImageEntryV { name, data });
    if images.len() == 0 {
        assert(out[0].name == name);
    } else {
        let rest = images.drop_first();
        assert forall|k: int| 0 <= k < rest.len() implies #[trigger] rest[k].name != name by {
            assert(rest[k] == images[k + 1]);
        }
        lemma_image_lookup_push(rest, name, data);
        assert(out[0] == images[0]);
        assert(out.drop_first() =~= rest.push(ImageEntryV { name, data }));
    }
}

/// Join a generated base name with the source file's extension: the
/// base, a dot, the extension.
fn join_name(base: &String, ext: &str) -> (r: String)
    ensures
        r@ == base@ + seq!['.'] + ext@,
{
    let ghost joined = base@ + seq!['.'] + ext@;
    let mut bytes = base.as_str().as_bytes_vec();
    bytes.push(46);
    let mut ext_bytes = ext.as_bytes_vec();
    bytes.append(&mut ext_bytes);
    proof {
        vstd::utf8::is_ascii_chars_encode_utf8(seq!['.']);
        assert(vstd::utf8::encode_utf8(seq!['.']) =~= seq![46u8]);
        crate::text::lemma_encode_utf8_concat(base@, seq!['.']);
        crate::text::lemma_encode_utf8_concat(base@ + seq!['.'], ext@);
        assert((base@ + seq!['.']) + ext@ =~= joined);
        assert(bytes@ =~= vstd::utf8::encode_utf8(joined));
        vstd::utf8::encode_utf8_valid_utf8(joined);
        vstd::utf8::encode_utf8_decode_utf8(joined);
    }
    match crate::outside::string_from_utf8(bytes) {
        Some(s) => s,
        None => {
            proof {
                assert(false);
            }
            base.clone()
        },
    }
}

} // verus!
