use vstd::prelude::*;
use crate::city::City;
use crate::version::Master;

verus! {

/// A stub map editor: it owns the writer side of the city channel and
/// publishes a fresh revision on demand.
pub struct Editor {
    pub city_publisher: Master<City>,
}

impl Editor {
    pub fn new(city: Master<City>) -> (r: Editor)
        ensures
            r.city_publisher == city,
    {
        Editor { city_publisher: city }
    }

    /// Publishes a new city revision, bumping the revision tag.
    pub fn run(&mut self)
        requires
            old(self).city_publisher.wf(),
        ensures
            final (self).city_publisher.wf(),
            final (self).city_publisher.master.id == 1,
    {
        let mut city = City::new(1, 1);
        city.id = 1;
        self.city_publisher.master = city;
        self.city_publisher.publish();
    }
}

} // verus!
