//! File names of a material's textures.
use vstd::prelude::*;

verus! {

/// Relies on std's `format!`: two `{}` arguments are written one after the
/// other.
#[verifier::external_body]
fn joined(a: &str, b: &str) -> (r: String)
    ensures
        r@ == a@ + b@,
{
    format!("{}{}", a, b)
}

/// The texture files of one PBR material.
pub struct TextureFileNames {
    pub albedo: String,
    pub normal: String,
    pub metallic: String,
    pub roughness: String,
    pub ao: String,
    pub height: String,
}

impl TextureFileNames {
    /// The default naming pattern: the material name followed by
    /// `_albedo.png`, `_normal-ogl.png`, `_metallic.png`, `_roughness.png`,
    /// `_ao.png` and `_height.png`.
    pub fn from_material_name(material_name: &str) -> (r: Self)
        ensures
            r.albedo@ == material_name@ + "_albedo.png"@,
            r.normal@ == material_name@ + "_normal-ogl.png"@,
            r.metallic@ == material_name@ + "_metallic.png"@,
            r.roughness@ == material_name@ + "_roughness.png"@,
            r.ao@ == material_name@ + "_ao.png"@,
            r.height@ == material_name@ + "_height.png"@,
    {
        TextureFileNames {
            albedo: joined(material_name, "_albedo.png"),
            normal: joined(material_name, "_normal-ogl.png"),
            metallic: joined(material_name, "_metallic.png"),
            roughness: joined(material_name, "_roughness.png"),
            ao: joined(material_name, "_ao.png"),
            height: joined(material_name, "_height.png"),
        }
    }

    /// Names given one by one.
    pub fn custom(albedo: &str, normal: &str, metallic: &str, roughness: &str, ao: &str, height: &str) -> (r: Self)
        ensures
            r.albedo@ == albedo@,
            r.normal@ == normal@,
            r.metallic@ == metallic@,
            r.roughness@ == roughness@,
            r.ao@ == ao@,
            r.height@ == height@,
    {
        TextureFileNames {
            albedo: albedo.to_owned(),
            normal: normal.to_owned(),
            metallic: metallic.to_owned(),
            roughness: roughness.to_owned(),
            ao: ao.to_owned(),
            height: height.to_owned(),
        }
    }
}

} // verus!
