//! Points and series: the value objects that every other layer stores.
use vstd::prelude::*;
use vstd::string::*;
use vstd::utf8::is_ascii_chars;

verus! {

/// A tag list as plain text: pairs of key and value.
pub type TagsView = Seq<(Seq<char>, Seq<char>)>;

pub open spec fn tags_view(tags: Seq<(String, String)>) -> TagsView {
    tags.map_values(|t: (String, String)| (t.0@, t.1@))
}

pub open spec fn tag_is_ascii(t: (Seq<char>, Seq<char>)) -> bool {
    is_ascii_chars(t.0) && is_ascii_chars(t.1)
}

pub open spec fn tags_are_ascii(tags: TagsView) -> bool {
    forall|i: int| 0 <= i < tags.len() ==> #[trigger] tag_is_ascii(tags[i])
}

#[derive(Debug)]
pub enum DataError {
    InvalidTimestamp(String),
    InvalidSeriesName(String),
    InvalidTagKey(String),
    InvalidTagValue(String),
    NonIncreasingTimestamp,
}

/// One measurement. The value is kept as the 64-bit pattern of an IEEE-754
/// double, so that it is stored and compared bit for bit.
#[derive(Debug)]
pub struct DataPoint {
    /// Nanoseconds since the epoch.
    pub timestamp: i64,
    /// Bit pattern of the measured value.
    pub value: u64,
    /// Key/value tags, in insertion order.
    pub tags: Vec<(String, String)>,
}

/// A point as plain values.
pub struct PointView {
    pub timestamp: i64,
    pub value: u64,
    pub tags: TagsView,
}

impl View for DataPoint {
    type V = PointView;

    open spec fn view(&self) -> PointView {
        PointView { timestamp: self.timestamp, value: self.value, tags: tags_view(self.tags@) }
    }
}

pub open spec fn points_view(s: Seq<DataPoint>) -> Seq<PointView> {
    s.map_values(|p: DataPoint| p@)
}

/// Copies a tag list element by element.
pub fn clone_tags(tags: &Vec<(String, String)>) -> (r: Vec<(String, String)>)
    ensures
        r@ == tags@,
{
    let mut r: Vec<(String, String)> = Vec::new();
    let mut i: usize = 0;
    while i < tags.len()
        invariant
            i <= tags@.len(),
            r@ == tags@.subrange(0, i as int),
        decreases tags@.len() - i,
    {
        let k = tags[i].0.clone();
        let v = tags[i].1.clone();
        r.push((k, v));
        proof {
            assert(tags@[i as int] == (k, v));
        }
        i += 1;
        assert(r@ =~= tags@.subrange(0, i as int));
    }
    assert(tags@.subrange(0, i as int) =~= tags@);
    r
}

impl DataPoint {
    pub fn new(timestamp: i64, value: u64, tags: Vec<(String, String)>) -> (r: Self)
        ensures
            r.timestamp == timestamp,
            r.value == value,
            r.tags == tags,
    {
        DataPoint { timestamp, value, tags }
    }

    pub fn timestamp(&self) -> (r: i64)
        ensures
            r == self.timestamp,
    {
        self.timestamp
    }

    pub fn value(&self) -> (r: u64)
        ensures
            r == self.value,
    {
        self.value
    }

    pub fn tags(&self) -> (r: &Vec<(String, String)>)
        ensures
            r == &self.tags,
    {
        &self.tags
    }

    /// A copy equal to this point in every field.
    pub fn duplicate(&self) -> (r: Self)
        ensures
            r.timestamp == self.timestamp,
            r.value == self.value,
            r.tags@ == self.tags@,
    {
        DataPoint { timestamp: self.timestamp, value: self.value, tags: clone_tags(&self.tags) }
    }

    /// A point is valid when its timestamp is not negative and every tag key
    /// and value is ASCII. The first offending tag, key before value, is
    /// reported.
    pub fn validate(&self) -> (r: Result<(), DataError>)
        ensures
            r is Ok <==> (self.timestamp >= 0 && tags_are_ascii(tags_view(self.tags@))),
            self.timestamp < 0 <==> r matches Err(DataError::InvalidTimestamp(_)),
            r matches Err(DataError::InvalidTagKey(k)) ==> exists|i: int|
                0 <= i < self.tags@.len() && (forall|j: int|
                    0 <= j < i ==> tag_is_ascii(#[trigger] tags_view(self.tags@)[j]))
                    && !is_ascii_chars(self.tags@[i].0@) && k@ == self.tags@[i].0@,
            r matches Err(DataError::InvalidTagValue(v)) ==> exists|i: int|
                0 <= i < self.tags@.len() && (forall|j: int|
                    0 <= j < i ==> tag_is_ascii(#[trigger] tags_view(self.tags@)[j]))
                    && is_ascii_chars(self.tags@[i].0@) && !is_ascii_chars(self.tags@[i].1@)
                    && v@ == self.tags@[i].1@,
            !(r matches Err(DataError::InvalidSeriesName(_))),
            !(r matches Err(DataError::NonIncreasingTimestamp)),
    {
        if self.timestamp < 0 {
            return Err(DataError::InvalidTimestamp(self.timestamp.to_string()));
        }
        let mut i: usize = 0;
        while i < self.tags.len()
            invariant
                i <= self.tags@.len(),
                self.timestamp >= 0,
                forall|j: int| 0 <= j < i ==> tag_is_ascii(#[trigger] tags_view(self.tags@)[j]),
            decreases self.tags@.len() - i,
        {
            if !self.tags[i].0.is_ascii() {
                assert(!tag_is_ascii(tags_view(self.tags@)[i as int]));
                return Err(DataError::InvalidTagKey(self.tags[i].0.clone()));
            }
            if !self.tags[i].1.is_ascii() {
                assert(!tag_is_ascii(tags_view(self.tags@)[i as int]));
                return Err(DataError::InvalidTagValue(self.tags[i].1.clone()));
            }
            i += 1;
        }
        Ok(())
    }
}

/// A named series whose timestamps strictly increase.
#[derive(Debug)]
pub struct TimeSeries {
    name: String,
    points: Vec<DataPoint>,
    last_timestamp: i64,
}

impl TimeSeries {
    pub closed spec fn spec_name(&self) -> Seq<char> {
        self.name@
    }

    pub closed spec fn spec_points(&self) -> Seq<DataPoint> {
        self.points@
    }

    pub closed spec fn spec_last_timestamp(&self) -> i64 {
        self.last_timestamp
    }

    /// Well-formed: a non-empty ASCII name, strictly increasing positive
    /// timestamps, and the last timestamp recorded (0 while empty).
    pub closed spec fn wf(&self) -> bool {
        &&& self.name@.len() > 0
        &&& is_ascii_chars(self.name@)
        &&& forall|i: int, j: int|
            0 <= i < j < self.points@.len() ==> #[trigger] self.points@[i].timestamp
                < #[trigger] self.points@[j].timestamp
        &&& forall|i: int| 0 <= i < self.points@.len() ==> #[trigger] self.points@[i].timestamp > 0
        &&& self.last_timestamp == if self.points@.len() == 0 {
            0
        } else {
            self.points@.last().timestamp
        }
    }

    pub fn new(name: String) -> (r: Result<Self, DataError>)
        ensures
            r is Ok <==> (name@.len() > 0 && is_ascii_chars(name@)),
            r is Err ==> r matches Err(DataError::InvalidSeriesName(_)),
            r matches Ok(s) ==> s.wf() && s.spec_name() == name@ && s.spec_points().len() == 0
                && s.spec_last_timestamp() == 0,
    {
        if name.as_str().is_empty() {
            return Err(DataError::InvalidSeriesName("Series name cannot be empty".to_string()));
        }
        if !name.is_ascii() {
            return Err(DataError::InvalidSeriesName("Series name must be ASCII-only".to_string()));
        }
        Ok(TimeSeries { name, points: Vec::new(), last_timestamp: 0 })
    }

    pub fn name(&self) -> (r: &str)
        ensures
            r@ == self.spec_name(),
    {
        self.name.as_str()
    }

    /// Appends a valid point whose timestamp is above the last one.
    pub fn add_point(&mut self, point: DataPoint) -> (r: Result<(), DataError>)
        requires
            old(self).wf(),
        ensures
            final(self).wf(),
            final(self).spec_name() == old(self).spec_name(),
            r is Ok <==> (point.timestamp >= 0 && tags_are_ascii(tags_view(point.tags@))
                && point.timestamp > old(self).spec_last_timestamp()),
            (point.timestamp >= 0 && tags_are_ascii(tags_view(point.tags@))
                && point.timestamp <= old(self).spec_last_timestamp()) ==> r matches Err(
                DataError::NonIncreasingTimestamp,
            ),
            r is Ok ==> final(self).spec_points() == old(self).spec_points().push(point)
                && final(self).spec_last_timestamp() == point.timestamp,
            r is Err ==> final(self).spec_points() == old(self).spec_points()
                && final(self).spec_last_timestamp() == old(self).spec_last_timestamp(),
    {
        match point.validate() {
            Err(e) => return Err(e),
            Ok(()) => {},
        }
        if point.timestamp <= self.last_timestamp {
            return Err(DataError::NonIncreasingTimestamp);
        }
        self.last_timestamp = point.timestamp;
        self.points.push(point);
        Ok(())
    }

    pub fn points(&self) -> (r: &Vec<DataPoint>)
        ensures
            r@ == self.spec_points(),
    {
        &self.points
    }

    pub fn last_timestamp(&self) -> (r: i64)
        ensures
            r == self.spec_last_timestamp(),
    {
        self.last_timestamp
    }
}

} // verus!
