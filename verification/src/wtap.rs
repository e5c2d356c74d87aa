//! The capture-source side: raw captured records (bytes plus metadata and
//! the byte offset they were read at) and a sequential reader over an
//! opened capture's records. Opening a file and decoding its container
//! format belong to the capture engine outside this crate; here the opened
//! capture is a sequence of records served in order.

use vstd::prelude::*;

use crate::error::Error;
use crate::error::WsError;
use vstd::string::StringExecFns;

verus! {

/// One raw captured record as the capture engine hands it over: the
/// captured bytes and their metadata.
#[derive(Debug)]
pub struct InnerWtapRec {
    /// The captured bytes.
    pub data: Vec<u8>,
    /// Capture timestamp, seconds part.
    pub ts_sec: i64,
    /// Capture timestamp, nanoseconds part.
    pub ts_nsec: i32,
    /// Declared on-the-wire length.
    pub rec_len: u32,
    /// Captured-to-disk length.
    pub cap_len: u32,
}

impl InnerWtapRec {
    /// The records hold the same bytes and the same metadata.
    pub open spec fn eqv(&self, o: &InnerWtapRec) -> bool {
        &&& self.data@ == o.data@
        &&& self.ts_sec == o.ts_sec
        &&& self.ts_nsec == o.ts_nsec
        &&& self.rec_len == o.rec_len
        &&& self.cap_len == o.cap_len
    }
}

impl Clone for InnerWtapRec {
    fn clone(&self) -> (r: Self)
        ensures
            r.eqv(self),
    {
        InnerWtapRec {
            data: self.data.clone(),
            ts_sec: self.ts_sec,
            ts_nsec: self.ts_nsec,
            rec_len: self.rec_len,
            cap_len: self.cap_len,
        }
    }
}

/// A raw record together with the byte offset it was read at and the
/// file-type tag inherited from its capture source.
#[derive(Debug)]
pub struct WtapRec {
    pub rec: InnerWtapRec,
    pub offset: i64,
    pub file_type: i32,
}

impl Clone for WtapRec {
    fn clone(&self) -> (r: Self)
        ensures
            r.eqv(self),
    {
        WtapRec { rec: self.rec.clone(), offset: self.offset, file_type: self.file_type }
    }
}

impl WtapRec {
    /// The records hold the same content, position and tag.
    pub open spec fn eqv(&self, o: &WtapRec) -> bool {
        &&& self.rec.eqv(&o.rec)
        &&& self.offset == o.offset
        &&& self.file_type == o.file_type
    }

    /// An empty record at offset 0 with no file type assigned yet.
    pub fn new() -> (r: WtapRec)
        ensures
            r.rec.data@ == Seq::<u8>::empty(),
            r.offset == 0,
            r.file_type == 0,
            r.rec.ts_sec == 0,
            r.rec.ts_nsec == 0,
            r.rec.rec_len == 0,
            r.rec.cap_len == 0,
    {
        WtapRec {
            rec: InnerWtapRec { data: Vec::new(), ts_sec: 0, ts_nsec: 0, rec_len: 0, cap_len: 0 },
            offset: 0,
            file_type: 0,
        }
    }

    /// Tags the record with the capture source's file type.
    pub fn set_file_type(&mut self, ftype: i32)
        ensures
            final(self).file_type == ftype,
            final(self).rec == old(self).rec,
            final(self).offset == old(self).offset,
    {
        self.file_type = ftype;
    }
}

/// An opened capture: its path, its detected file type, and its records in
/// file order, served sequentially. The file I/O that fills it lives with
/// the capture engine outside this crate.
#[derive(Debug)]
pub struct Wtap {
    pub path: String,
    pub file_type: i32,
    pub records: Vec<WtapRec>,
    pub pos: usize,
}

impl Wtap {
    /// All records carry the capture's own file type.
    pub open spec fn wf(&self) -> bool {
        &&& self.pos <= self.records@.len()
        &&& forall|k: int|
            0 <= k < self.records@.len() ==> (#[trigger] self.records@[k]).file_type
                == self.file_type
    }

    /// An opened capture over the given records, positioned at the first.
    pub fn new(path: String, file_type: i32, records: Vec<WtapRec>) -> (r: Result<Wtap, WsError>)
        requires
            forall|k: int|
                0 <= k < records@.len() ==> (#[trigger] records@[k]).file_type == file_type,
        ensures
            r matches Ok(w) ==> {
                &&& w.wf()
                &&& w.path == path
                &&& w.file_type == file_type
                &&& w.records@ == records@
                &&& w.pos == 0
            },
            r is Ok,
    {
        Ok(Wtap { path, file_type, records, pos: 0 })
    }

    /// Serves the next record in file order; the end of the capture is
    /// reported as `EOF`, distinguished from an error.
    pub fn read(&mut self) -> (r: Result<WtapRec, Error>)
        requires
            old(self).wf(),
        ensures
            final(self).wf(),
            final(self).records@ == old(self).records@,
            final(self).file_type == old(self).file_type,
            final(self).path == old(self).path,
            r is Ok <==> old(self).pos < old(self).records@.len(),
            r matches Ok(rec) ==> {
                &&& rec.eqv(&old(self).records@[old(self).pos as int])
                &&& final(self).pos == old(self).pos + 1
            },
            r matches Err(e) ==> e is EOF && final(self).pos == old(self).pos,
    {
        if self.pos < self.records.len() {
            let rec = self.records[self.pos].clone();
            self.pos = self.pos + 1;
            Ok(rec)
        } else {
            Err(Error::EOF)
        }
    }

    /// Serves the record previously read at the given byte offset, without
    /// moving the sequential position; an unknown offset is a source error.
    pub fn seek_read(&mut self, offset: i64) -> (r: Result<WtapRec, WsError>)
        requires
            old(self).wf(),
        ensures
            *final(self) == *old(self),
            r is Ok <==> (exists|k: int|
                0 <= k < old(self).records@.len() && (#[trigger] old(self).records@[k]).offset
                    == offset),
            r matches Ok(rec) ==> exists|k: int|
                0 <= k < old(self).records@.len() && rec.eqv(#[trigger] &old(self).records@[k])
                    && rec.offset == offset && (forall|m: int|
                    0 <= m < k ==> (#[trigger] old(self).records@[m]).offset != offset),
    {
        let mut k: usize = 0;
        while k < self.records.len()
            invariant
                k <= self.records@.len(),
                forall|m: int| 0 <= m < k ==> (#[trigger] self.records@[m]).offset != offset,
            decreases self.records@.len() - k,
        {
            if self.records[k].offset == offset {
                let rec = self.records[k].clone();
                proof {
                    assert(rec.eqv(&self.records@[k as int]));
                }
                return Ok(rec);
            }
            k = k + 1;
        }
        Err(WsError { err: 1, err_info: String::from_str("no record at the requested offset") })
    }
}

} // verus!
