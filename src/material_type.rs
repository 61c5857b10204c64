use vstd::prelude::*;

verus! {

/// Numeric tag that names a material family inside packed scene buffers:
/// `0` is Lambertian, `1` metallic, `2` dielectric.
#[derive(Clone, Copy, Debug, PartialEq, Eq, Structural)]
pub struct MaterialType {
    material_type: u32,
}

impl MaterialType {
    /// The numeric tag as stored in the buffer.
    pub closed spec fn spec_code(self) -> u32 {
        self.material_type
    }

    /// Only the three material families have a tag.
    pub open spec fn wf(self) -> bool {
        self.spec_code() < 3
    }

    /// Tag of the diffuse (Lambertian) family.
    pub fn lambertain() -> (r: MaterialType)
        ensures
            r.spec_code() == 0,
            r.wf(),
    {
        MaterialType { material_type: 0 }
    }

    /// Tag of the metallic family.
    pub fn metalic() -> (r: MaterialType)
        ensures
            r.spec_code() == 1,
            r.wf(),
    {
        MaterialType { material_type: 1 }
    }

    /// Tag of the dielectric (glass) family.
    pub fn dielectric() -> (r: MaterialType)
        ensures
            r.spec_code() == 2,
            r.wf(),
    {
        MaterialType { material_type: 2 }
    }

    /// The numeric tag as stored in the buffer.
    pub fn code(&self) -> (r: u32)
        ensures
            r == self.spec_code(),
    {
        self.material_type
    }
}

} // verus!
