//! Conversions between BootStage images, ELF executables and DOL files.
use vstd::prelude::*;
use crate::bootstage::{BSImage, ImageModel};
use crate::dol::{dol_spec, raw_to_dol};
use crate::elf::{elf_to_raw, elf_to_raw_spec, ElfError};

verus! {

/// The DOL file for the stage-two payload of a decoded image.
pub fn bs_to_dtk(image: &BSImage) -> (r: Vec<u8>)
    requires
        image@.wf(),
    ensures
        r@ == dol_spec(
            image.bs2_data@,
            image.text_addr@,
            image.text_len@,
            image.data_addr@,
            image.data_len@,
            image.bss_addr@,
            image.bss_len@,
            image.bs2_entry,
            image.bs2_addr,
        ),
{
    raw_to_dol(
        &image.bs2_data,
        &image.text_addr,
        &image.text_len,
        &image.data_addr,
        &image.data_len,
        &image.bss_addr,
        &image.bss_len,
        image.bs2_entry,
        image.bs2_addr,
    )
}

/// The stage-two size of a conversion: the override where given, else the
/// template's own.
pub open spec fn chosen_size(template: ImageModel, image_size: Option<usize>) -> nat {
    match image_size {
        Some(s) => s as nat,
        None => template.bs2_len as nat,
    }
}

/// The stage-two base address of a conversion: the override where given,
/// else the template's own.
pub open spec fn chosen_base(template: ImageModel, base_addr: Option<u32>) -> u32 {
    match base_addr {
        Some(a) => a,
        None => template.bs2_addr,
    }
}

/// The template with its stage two replaced by flattened ELF `elf`.
pub open spec fn elf_to_bs_spec(
    template: ImageModel,
    elf: Seq<u8>,
    image_size: Option<usize>,
    base_addr: Option<u32>,
) -> Result<ImageModel, ElfError> {
    let size = chosen_size(template, image_size);
    let base = chosen_base(template, base_addr);
    match elf_to_raw_spec(elf, size, base) {
        Err(e) => Err(e),
        Ok((data, b, entry)) => Ok(
            ImageModel { bs2_data: data, bs2_addr: b, bs2_len: size as u32, bs2_entry: entry, ..template },
        ),
    }
}

/// Replaces the stage two of the template image by the ELF executable
/// `elf_file`, flattened into `image_size` bytes at `base_addr`; an omitted
/// size or address is the template's own.
pub fn elf_to_bs(
    base_image: BSImage,
    elf_file: &Vec<u8>,
    image_size: Option<usize>,
    base_addr: Option<u32>,
) -> (r: Result<BSImage, ElfError>)
    requires
        image_size matches Some(s) ==> s <= u32::MAX,
    ensures
        r matches Ok(img) ==> elf_to_bs_spec(base_image@, elf_file@, image_size, base_addr) == Ok::<
            ImageModel,
            ElfError,
        >(img@),
        r matches Err(e) ==> elf_to_bs_spec(base_image@, elf_file@, image_size, base_addr) == Err::<
            ImageModel,
            ElfError,
        >(e),
{
    let bs2_image_size: usize = match image_size {
        Some(s) => s,
        None => base_image.bs2_len as usize,
    };
    let bs2_base_addr: u32 = match base_addr {
        Some(a) => a,
        None => base_image.bs2_addr,
    };
    let raw_elf_data = match elf_to_raw(elf_file, bs2_image_size, bs2_base_addr) {
        Ok(raw) => raw,
        Err(e) => return Err(e),
    };
    let mut output_image = base_image;
    output_image.bs2_data = raw_elf_data.data;
    output_image.bs2_addr = raw_elf_data.base_addr;
    output_image.bs2_len = bs2_image_size as u32;
    output_image.bs2_entry = raw_elf_data.entry_point;
    Ok(output_image)
}

} // verus!
